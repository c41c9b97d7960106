use crate::barnes_hut::{
    floor_div, lemma_moment_bound, Node, PointMass, TreeError, GRAIN, ROI_LIMIT,
};
use crate::body::{Body, Vec2, COORD_LIMIT, MASS_LIMIT};
use vstd::prelude::*;

verus! {

/// Why a set of bodies cannot be simulated.
#[derive(Clone, Copy, Debug, PartialEq, Eq, Structural)]
pub enum ModelError {
    /// There is no body at all.
    NoBodies,
    /// The body at this index has no mass, too much mass, or lies out of range.
    InvalidBody(usize),
    /// The bodies together weigh more than `MASS_LIMIT`.
    TooHeavy,
}

/// The bodies, the square region of interest around them, and the tree that
/// was last built over them.
pub struct ModelNBody {
    /// Center of the region of interest; follows the center of mass.
    pub center: Vec2,
    /// Half the side of the region of interest.
    pub roi: i64,
    pub bodies: Vec<Body>,
    pub tree: Node,
}

/// Sum of the masses of `bodies`.
pub open spec fn total_mass(bodies: Seq<Body>) -> nat
    decreases bodies.len(),
{
    if bodies.len() == 0 {
        0
    } else {
        total_mass(bodies.drop_last()) + bodies.last().mass as nat
    }
}

/// `p` lies in the closed square of half side `roi` around `center`.
pub open spec fn in_region(center: Vec2, roi: int, p: Vec2) -> bool {
    &&& center.x - roi <= p.x <= center.x + roi
    &&& center.y - roi <= p.y <= center.y + roi
}

/// Sum of the masses of those of `bodies` that lie in the region.
pub open spec fn region_mass(center: Vec2, roi: int, bodies: Seq<Body>) -> nat
    decreases bodies.len(),
{
    if bodies.len() == 0 {
        0
    } else {
        region_mass(center, roi, bodies.drop_last()) + if in_region(center, roi, bodies.last().pos) {
            bodies.last().mass as nat
        } else {
            0
        }
    }
}

/// Sum of mass times x over those of `bodies` that lie in the region.
pub open spec fn region_moment_x(center: Vec2, roi: int, bodies: Seq<Body>) -> int
    decreases bodies.len(),
{
    if bodies.len() == 0 {
        0
    } else {
        region_moment_x(center, roi, bodies.drop_last()) + if in_region(
            center,
            roi,
            bodies.last().pos,
        ) {
            bodies.last().moment_x()
        } else {
            0
        }
    }
}

/// Sum of mass times y over those of `bodies` that lie in the region.
pub open spec fn region_moment_y(center: Vec2, roi: int, bodies: Seq<Body>) -> int
    decreases bodies.len(),
{
    if bodies.len() == 0 {
        0
    } else {
        region_moment_y(center, roi, bodies.drop_last()) + if in_region(
            center,
            roi,
            bodies.last().pos,
        ) {
            bodies.last().moment_y()
        } else {
            0
        }
    }
}

/// Two of the first `n` bodies that lie in the region share a position.
pub open spec fn coincident_below(center: Vec2, roi: int, bodies: Seq<Body>, n: int) -> bool {
    exists|j: int, k: int|
        0 <= j < k < n && (#[trigger] bodies[j]).pos == (#[trigger] bodies[k]).pos && in_region(
            center,
            roi,
            bodies[j].pos,
        )
}

/// Two of the bodies that lie in the region share a position.
pub open spec fn coincident_pair(center: Vec2, roi: int, bodies: Seq<Body>) -> bool {
    coincident_below(center, roi, bodies, bodies.len() as int)
}

/// Body `b` is one of the first `n` bodies and lies in the region.
pub open spec fn listed_in_region(center: Vec2, roi: int, bodies: Seq<Body>, n: int, b: Body) -> bool {
    in_region(center, roi, b.pos) && exists|k: int| 0 <= k < n && #[trigger] bodies[k] == b
}

/// The half side that goes with a bounding box of side `extent`: the box's
/// side widened by five percent and then by half again, that is `63 / 40`
/// of it, rounded up to a whole lattice unit, and at least one.
pub open spec fn roi_for(extent: int, roi: int) -> bool {
    &&& roi >= 1
    &&& 40 * roi >= 63 * extent
    &&& (roi == 1 || 40 * (roi - 1) < 63 * extent)
}

/// Least x among `bodies`; `COORD_LIMIT` when there are none.
pub open spec fn min_x(bodies: Seq<Body>) -> int
    decreases bodies.len(),
{
    if bodies.len() == 0 {
        COORD_LIMIT as int
    } else {
        vstd::math::min(min_x(bodies.drop_last()), bodies.last().pos.x as int)
    }
}

/// Greatest x among `bodies`; `-COORD_LIMIT` when there are none.
pub open spec fn max_x(bodies: Seq<Body>) -> int
    decreases bodies.len(),
{
    if bodies.len() == 0 {
        -COORD_LIMIT as int
    } else {
        vstd::math::max(max_x(bodies.drop_last()), bodies.last().pos.x as int)
    }
}

/// Least y among `bodies`; `COORD_LIMIT` when there are none.
pub open spec fn min_y(bodies: Seq<Body>) -> int
    decreases bodies.len(),
{
    if bodies.len() == 0 {
        COORD_LIMIT as int
    } else {
        vstd::math::min(min_y(bodies.drop_last()), bodies.last().pos.y as int)
    }
}

/// Greatest y among `bodies`; `-COORD_LIMIT` when there are none.
pub open spec fn max_y(bodies: Seq<Body>) -> int
    decreases bodies.len(),
{
    if bodies.len() == 0 {
        -COORD_LIMIT as int
    } else {
        vstd::math::max(max_y(bodies.drop_last()), bodies.last().pos.y as int)
    }
}

/// Side of the bounding square of `bodies`: the larger of its two extents.
pub open spec fn extent(bodies: Seq<Body>) -> int {
    vstd::math::max(max_x(bodies) - min_x(bodies), max_y(bodies) - min_y(bodies))
}

/// The least whole `roi` with `40 roi >= 63 extent`, and at least one.
pub fn region_half_side(extent: i64) -> (roi: i64)
    requires
        0 <= extent <= 2 * COORD_LIMIT,
    ensures
        roi_for(extent as int, roi as int),
        1 <= roi <= ROI_LIMIT,
{
    let roi: i64 = (63 * extent + 39) / 40;
    if roi < 1 {
        1
    } else {
        roi
    }
}

impl ModelNBody {
    /// The invariant: bodies are valid and weigh at most `MASS_LIMIT`
    /// together, the region is a square in range, and the tree is well
    /// formed.
    pub open spec fn wf(self) -> bool {
        &&& self.center.in_range()
        &&& 1 <= self.roi <= ROI_LIMIT
        &&& forall|i: int| 0 <= i < self.bodies@.len() ==> (#[trigger] self.bodies@[i]).valid()
        &&& total_mass(self.bodies@) <= MASS_LIMIT
        &&& self.tree.wf()
    }

    /// Takes the bodies and lays the region of interest around them: its
    /// center is the midpoint of their bounding box, its half side follows
    /// from the box's larger extent by `roi_for`. The tree starts empty.
    pub fn new(bodies: Vec<Body>) -> (r: Result<ModelNBody, ModelError>)
        ensures
            match r {
                Ok(model) => {
                    &&& model.wf()
                    &&& model.bodies@ == bodies@
                    &&& bodies@.len() > 0
                    &&& model.center.x == (min_x(bodies@) + max_x(bodies@)) / 2
                    &&& model.center.y == (min_y(bodies@) + max_y(bodies@)) / 2
                    &&& roi_for(extent(bodies@), model.roi as int)
                    &&& model.tree.nested is Empty
                    &&& forall|i: int|
                        0 <= i < bodies@.len() ==> in_region(
                            model.center,
                            model.roi as int,
                            (#[trigger] bodies@[i]).pos,
                        )
                },
                Err(ModelError::NoBodies) => bodies@.len() == 0,
                Err(ModelError::InvalidBody(i)) => {
                    &&& i < bodies@.len()
                    &&& !bodies@[i as int].valid()
                    &&& forall|j: int| 0 <= j < i ==> (#[trigger] bodies@[j]).valid()
                },
                Err(ModelError::TooHeavy) => {
                    &&& bodies@.len() > 0
                    &&& forall|j: int| 0 <= j < bodies@.len() ==> (#[trigger] bodies@[j]).valid()
                    &&& total_mass(bodies@) > MASS_LIMIT
                },
            },
    {
        let n = bodies.len();
        if n == 0 {
            return Err(ModelError::NoBodies);
        }
        let mut lo = Vec2 { x: COORD_LIMIT, y: COORD_LIMIT };
        let mut hi = Vec2 { x: -COORD_LIMIT, y: -COORD_LIMIT };
        let mut mass: u64 = 0;
        let mut heavy = false;
        let mut i: usize = 0;
        while i < n
            invariant
                n == bodies@.len(),
                0 <= i <= n,
                forall|j: int| 0 <= j < i ==> (#[trigger] bodies@[j]).valid(),
                lo.x == min_x(bodies@.take(i as int)),
                lo.y == min_y(bodies@.take(i as int)),
                hi.x == max_x(bodies@.take(i as int)),
                hi.y == max_y(bodies@.take(i as int)),
                -COORD_LIMIT <= lo.x <= COORD_LIMIT,
                -COORD_LIMIT <= lo.y <= COORD_LIMIT,
                -COORD_LIMIT <= hi.x <= COORD_LIMIT,
                -COORD_LIMIT <= hi.y <= COORD_LIMIT,
                i > 0 ==> lo.x <= hi.x && lo.y <= hi.y,
                forall|j: int|
                    0 <= j < i ==> lo.x <= (#[trigger] bodies@[j]).pos.x <= hi.x && lo.y
                        <= bodies@[j].pos.y <= hi.y,
                mass <= MASS_LIMIT,
                !heavy ==> mass == total_mass(bodies@.take(i as int)),
                heavy ==> total_mass(bodies@.take(i as int)) > MASS_LIMIT,
            decreases n - i,
        {
            let b = bodies[i];
            if !b.is_valid() {
                return Err(ModelError::InvalidBody(i));
            }
            proof {
                assert(bodies@.take(i as int + 1).drop_last() =~= bodies@.take(i as int));
                assert(bodies@.take(i as int + 1).last() == b);
            }
            if b.pos.x < lo.x {
                lo.x = b.pos.x;
            }
            if b.pos.y < lo.y {
                lo.y = b.pos.y;
            }
            if b.pos.x > hi.x {
                hi.x = b.pos.x;
            }
            if b.pos.y > hi.y {
                hi.y = b.pos.y;
            }
            if !heavy {
                if mass + b.mass > MASS_LIMIT {
                    heavy = true;
                } else {
                    mass = mass + b.mass;
                }
            }
            i = i + 1;
        }
        proof {
            assert(bodies@.take(n as int) =~= bodies@);
        }
        if heavy {
            return Err(ModelError::TooHeavy);
        }
        let width: i64 = hi.x - lo.x;
        let height: i64 = hi.y - lo.y;
        let side: i64 = if width >= height {
            width
        } else {
            height
        };
        let roi = region_half_side(side);
        let center = Vec2 { x: floor_div(lo.x + hi.x, 2), y: floor_div(lo.y + hi.y, 2) };
        let tree = Node::root(center, roi);
        Ok(ModelNBody { center, roi, bodies, tree })
    }

    /// The tree of `post` was built over the region and the bodies of `pre`:
    /// it covers exactly the region, holds exactly the bodies that lie in it,
    /// its mass is the sum of their masses and its moment the sum of their
    /// masses times their positions, at every node; and the region's center
    /// has moved to their center of mass.
    pub open spec fn built(pre: ModelNBody, post: ModelNBody) -> bool {
        let c = pre.center;
        let roi = pre.roi as int;
        let bodies = pre.bodies@;
        &&& post.tree.lower == (Vec2 {
            x: (GRAIN * (c.x - roi)) as i64,
            y: (GRAIN * (c.y - roi)) as i64,
        })
        &&& post.tree.side == 2 * roi * GRAIN
        &&& post.tree.compact()
        &&& post.tree.aggregated()
        &&& forall|b: Body| #[trigger]
            post.tree.stores(b) <==> listed_in_region(c, roi, bodies, bodies.len() as int, b)
        &&& post.tree.body_mass() == region_mass(c, roi, bodies)
        &&& post.tree.body_moment_x() == region_moment_x(c, roi, bodies)
        &&& post.tree.body_moment_y() == region_moment_y(c, roi, bodies)
        &&& post.tree.mass == region_mass(c, roi, bodies)
        &&& post.tree.moment.x == region_moment_x(c, roi, bodies)
        &&& post.tree.moment.y == region_moment_y(c, roi, bodies)
        &&& post.center == match post.tree.mass_center() {
            Some(m) => m,
            None => c,
        }
    }

    /// Builds a fresh tree over the region from all bodies, fills in the
    /// aggregates, and moves the region's center to the center of mass of
    /// the bodies in the tree.
    ///
    /// Bodies outside the region are left out. Two bodies in the region at
    /// one position are an error that names both; the center then stays.
    pub fn build_tree(&mut self) -> (r: Result<(), TreeError>)
        requires
            old(self).wf(),
        ensures
            final(self).wf(),
            final(self).bodies@ == old(self).bodies@,
            final(self).roi == old(self).roi,
            r is Err <==> coincident_pair(old(self).center, old(self).roi as int, old(self).bodies@),
            r is Ok ==> ModelNBody::built(*old(self), *final(self)),
            r is Err ==> {
                &&& final(self).center == old(self).center
                &&& r->Err_0 matches TreeError::Coincident { incumbent, incoming }
                &&& incumbent.pos == incoming.pos
                &&& old(self).bodies@.contains(incumbent)
                &&& old(self).bodies@.contains(incoming)
            },
    {
        let ghost pre = *self;
        let ghost c = self.center;
        let ghost roi = self.roi as int;
        let ghost bodies = self.bodies@;
        let n = self.bodies.len();
        let mut tree = Node::root(self.center, self.roi);
        let mut i: usize = 0;
        while i < n
            invariant
                *self == pre,
                pre == *old(self),
                pre.wf(),
                c == pre.center,
                roi == pre.roi,
                bodies == pre.bodies@,
                n == bodies.len(),
                0 <= i <= n,
                tree.wf(),
                tree.lower == (Vec2 {
                    x: (GRAIN * (c.x - roi)) as i64,
                    y: (GRAIN * (c.y - roi)) as i64,
                }),
                tree.side == 2 * roi * GRAIN,
                tree.compact(),
                forall|b: Body| #[trigger]
                    tree.stores(b) <==> listed_in_region(c, roi, bodies, i as int, b),
                tree.body_mass() == region_mass(c, roi, bodies.take(i as int)),
                tree.body_moment_x() == region_moment_x(c, roi, bodies.take(i as int)),
                tree.body_moment_y() == region_moment_y(c, roi, bodies.take(i as int)),
                !coincident_below(c, roi, bodies, i as int),
            decreases n - i,
        {
            let b = self.bodies[i];
            let ghost before = tree;
            proof {
                assert(bodies.take(i as int + 1).drop_last() =~= bodies.take(i as int));
                assert(bodies.take(i as int + 1).last() == b);
                assert(before.encloses(b.pos) <==> in_region(c, roi, b.pos));
                lemma_occupied_listed(before, c, roi, bodies, i as int, b);
            }
            match tree.insert_particle(b) {
                Err(e) => {
                    proof {
                        let m = choose|m: u64| #[trigger] before.stores(Body { pos: b.pos, mass: m });
                        let other = Body { pos: b.pos, mass: m };
                        let k = choose|k: int| 0 <= k < i && #[trigger] bodies[k] == other;
                        assert(bodies[k].pos == bodies[i as int].pos);
                        assert(coincident_below(c, roi, bodies, n as int));
                        match e {
                            TreeError::Coincident { incumbent, incoming } => {
                                assert(listed_in_region(c, roi, bodies, i as int, incumbent));
                                let j = choose|j: int| 0 <= j < i && #[trigger] bodies[j] == incumbent;
                                assert(bodies[j] == incumbent);
                                assert(bodies[i as int] == incoming);
                            },
                        }
                    }
                    self.tree = tree;
                    return Err(e);
                },
                Ok(_) => {
                    proof {
                        lemma_listed_step(c, roi, bodies, i as int);
                    }
                },
            }
            i = i + 1;
        }
        proof {
            assert(bodies.take(n as int) =~= bodies);
            lemma_region_mass_bound(c, roi, bodies);
        }
        let center = tree.compute_mass_distribution();
        proof {
            lemma_center_in_range(tree);
        }
        self.tree = tree;
        match center {
            Some(m) => {
                self.center = m;
            },
            None => {},
        }
        Ok(())
    }

    /// What `eval` gives a body at `pos`: the point masses with which the
    /// tree pulls on it, if it lies in the region that the tree was built
    /// over; nothing, if it lies outside.
    pub open spec fn pull_on(center: Vec2, roi: int, tree: Node, pos: Vec2) -> Option<
        Seq<PointMass>,
    > {
        if in_region(center, roi, pos) {
            Some(tree.sources(pos))
        } else {
            None
        }
    }

    /// The sequence of point masses in a list that `eval` gives, if any.
    pub open spec fn listed(list: Option<Vec<PointMass>>) -> Option<Seq<PointMass>> {
        match list {
            Some(l) => Some(l@),
            None => None,
        }
    }

    /// Builds the tree and gives, for every body in turn, the point masses
    /// that pull on it: what the tree gives for the body's position. A body
    /// outside the region gets `None`: the tree does not pull on it in this
    /// step, and it is for the caller to leave its pull as it was.
    pub fn eval(&mut self) -> (r: Result<Vec<Option<Vec<PointMass>>>, TreeError>)
        requires
            old(self).wf(),
        ensures
            final(self).wf(),
            final(self).bodies@ == old(self).bodies@,
            final(self).roi == old(self).roi,
            r is Err <==> coincident_pair(old(self).center, old(self).roi as int, old(self).bodies@),
            r is Err ==> final(self).center == old(self).center,
            match r {
                Ok(lists) => {
                    &&& ModelNBody::built(*old(self), *final(self))
                    &&& lists@.len() == old(self).bodies@.len()
                    &&& forall|i: int|
                        0 <= i < lists@.len() ==> ModelNBody::listed(#[trigger] lists@[i])
                            == ModelNBody::pull_on(
                            old(self).center,
                            old(self).roi as int,
                            final(self).tree,
                            old(self).bodies@[i].pos,
                        )
                },
                Err(_) => true,
            },
    {
        let ghost c = self.center;
        let ghost roi = self.roi as int;
        match self.build_tree() {
            Err(e) => {
                return Err(e);
            },
            Ok(_) => {},
        }
        proof {
            lemma_region_mass_bound(old(self).center, old(self).roi as int, old(self).bodies@);
        }
        let n = self.bodies.len();
        let mut lists: Vec<Option<Vec<PointMass>>> = Vec::new();
        let mut i: usize = 0;
        while i < n
            invariant
                self.wf(),
                c.in_range(),
                1 <= roi <= ROI_LIMIT,
                self.tree.lower == (Vec2 {
                    x: (GRAIN * (c.x - roi)) as i64,
                    y: (GRAIN * (c.y - roi)) as i64,
                }),
                self.tree.side == 2 * roi * GRAIN,
                self.tree.aggregated(),
                self.tree.body_mass() <= MASS_LIMIT,
                n == self.bodies@.len(),
                0 <= i <= n,
                lists@.len() == i,
                forall|k: int|
                    0 <= k < i ==> ModelNBody::listed(#[trigger] lists@[k]) == ModelNBody::pull_on(
                        c,
                        roi,
                        self.tree,
                        self.bodies@[k].pos,
                    ),
            decreases n - i,
        {
            let pos = self.bodies[i].pos;
            assert(self.tree.encloses(pos) <==> in_region(c, roi, pos));
            let list = if self.tree.contains(pos) {
                Some(self.tree.calc_force(pos))
            } else {
                None
            };
            lists.push(list);
            i = i + 1;
        }
        Ok(lists)
    }

    /// Moves body `i` to `pos`. Nothing changes, and `false` comes back, when
    /// there is no such body or `pos` is out of range.
    pub fn move_body(&mut self, i: usize, pos: Vec2) -> (moved: bool)
        requires
            old(self).wf(),
        ensures
            final(self).wf(),
            moved == (i < old(self).bodies@.len() && pos.in_range()),
            moved ==> final(self).bodies@ == old(self).bodies@.update(
                i as int,
                Body { pos, mass: old(self).bodies@[i as int].mass },
            ),
            !moved ==> final(self).bodies@ == old(self).bodies@,
            final(self).center == old(self).center,
            final(self).roi == old(self).roi,
            final(self).tree == old(self).tree,
    {
        if i >= self.bodies.len() || !(-COORD_LIMIT <= pos.x && pos.x <= COORD_LIMIT && -COORD_LIMIT
            <= pos.y && pos.y <= COORD_LIMIT) {
            return false;
        }
        let ghost before = self.bodies@;
        let mass = self.bodies[i].mass;
        self.bodies[i] = Body { pos, mass };
        proof {
            lemma_total_mass_update(before, i as int, Body { pos, mass });
        }
        true
    }
}

/// Replacing a body by one of the same mass keeps the total mass.
pub proof fn lemma_total_mass_update(bodies: Seq<Body>, i: int, b: Body)
    requires
        0 <= i < bodies.len(),
        b.mass == bodies[i].mass,
    ensures
        total_mass(bodies.update(i, b)) == total_mass(bodies),
    decreases bodies.len(),
{
    let after = bodies.update(i, b);
    if i == bodies.len() - 1 {
        assert(after.drop_last() =~= bodies.drop_last());
    } else {
        assert(after.drop_last() =~= bodies.drop_last().update(i, b));
        lemma_total_mass_update(bodies.drop_last(), i, b);
    }
}

/// While the tree holds the listed bodies of the region, a position is
/// occupied exactly if one of them sits there.
pub proof fn lemma_occupied_listed(tree: Node, c: Vec2, roi: int, bodies: Seq<Body>, n: int, b: Body)
    requires
        forall|x: Body| #[trigger] tree.stores(x) <==> listed_in_region(c, roi, bodies, n, x),
    ensures
        tree.occupied(b.pos) <==> in_region(c, roi, b.pos) && exists|k: int|
            0 <= k < n && (#[trigger] bodies[k]).pos == b.pos,
{
    if tree.occupied(b.pos) {
        let m = choose|m: u64| #[trigger] tree.stores(Body { pos: b.pos, mass: m });
        let x = Body { pos: b.pos, mass: m };
        assert(listed_in_region(c, roi, bodies, n, x));
        let k = choose|k: int| 0 <= k < n && #[trigger] bodies[k] == x;
        assert(bodies[k].pos == b.pos);
    }
    if in_region(c, roi, b.pos) && exists|k: int| 0 <= k < n && (#[trigger] bodies[k]).pos == b.pos {
        let k = choose|k: int| 0 <= k < n && (#[trigger] bodies[k]).pos == b.pos;
        let x = bodies[k];
        assert(listed_in_region(c, roi, bodies, n, x));
        assert(tree.stores(Body { pos: b.pos, mass: x.mass }));
    }
}

/// What one more body adds to the listed bodies and to the coincident pairs.
pub proof fn lemma_listed_step(c: Vec2, roi: int, bodies: Seq<Body>, n: int)
    requires
        0 <= n < bodies.len(),
    ensures
        forall|x: Body|
            #[trigger] listed_in_region(c, roi, bodies, n + 1, x) <==> listed_in_region(
                c,
                roi,
                bodies,
                n,
                x,
            ) || (x == bodies[n] && in_region(c, roi, x.pos)),
        coincident_below(c, roi, bodies, n + 1) <==> coincident_below(c, roi, bodies, n) || (
        in_region(c, roi, bodies[n].pos) && exists|k: int|
            0 <= k < n && (#[trigger] bodies[k]).pos == bodies[n].pos),
{
    assert forall|x: Body|
        #[trigger] listed_in_region(c, roi, bodies, n + 1, x) <==> listed_in_region(
            c,
            roi,
            bodies,
            n,
            x,
        ) || (x == bodies[n] && in_region(c, roi, x.pos)) by {
        if listed_in_region(c, roi, bodies, n + 1, x) {
            let k = choose|k: int| 0 <= k < n + 1 && #[trigger] bodies[k] == x;
            if k < n {
                assert(listed_in_region(c, roi, bodies, n, x));
            }
        }
        if listed_in_region(c, roi, bodies, n, x) {
            let k = choose|k: int| 0 <= k < n && #[trigger] bodies[k] == x;
            assert(0 <= k < n + 1 && bodies[k] == x);
        }
        if x == bodies[n] && in_region(c, roi, x.pos) {
            assert(0 <= n < n + 1 && bodies[n] == x);
        }
    }
    if coincident_below(c, roi, bodies, n + 1) {
        let (j, k) = choose|j: int, k: int|
            0 <= j < k < n + 1 && (#[trigger] bodies[j]).pos == (#[trigger] bodies[k]).pos
                && in_region(c, roi, bodies[j].pos);
        if k < n {
            assert(coincident_below(c, roi, bodies, n));
        } else {
            assert(0 <= j < n && bodies[j].pos == bodies[n].pos);
        }
    }
    if coincident_below(c, roi, bodies, n) {
        let (j, k) = choose|j: int, k: int|
            0 <= j < k < n && (#[trigger] bodies[j]).pos == (#[trigger] bodies[k]).pos && in_region(
                c,
                roi,
                bodies[j].pos,
            );
        assert(0 <= j < k < n + 1 && bodies[j].pos == bodies[k].pos);
    }
    if in_region(c, roi, bodies[n].pos) && exists|k: int|
        0 <= k < n && (#[trigger] bodies[k]).pos == bodies[n].pos {
        let k = choose|k: int| 0 <= k < n && (#[trigger] bodies[k]).pos == bodies[n].pos;
        assert(0 <= k < n < n + 1 && bodies[k].pos == bodies[n].pos && in_region(
            c,
            roi,
            bodies[k].pos,
        ));
    }
}

/// The bodies in the region weigh no more than all bodies.
pub proof fn lemma_region_mass_bound(c: Vec2, roi: int, bodies: Seq<Body>)
    ensures
        region_mass(c, roi, bodies) <= total_mass(bodies),
    decreases bodies.len(),
{
    if bodies.len() > 0 {
        lemma_region_mass_bound(c, roi, bodies.drop_last());
    }
}

/// The center of mass of a well-formed tree lies in range.
pub proof fn lemma_center_in_range(tree: Node)
    requires
        tree.wf(),
    ensures
        match tree.mass_center() {
            Some(m) => m.in_range(),
            None => true,
        },
{
    lemma_moment_bound(tree);
    let m = tree.body_mass() as int;
    if m > 0 {
        lemma_quotient_bound(tree.body_moment_x(), m, COORD_LIMIT as int);
        lemma_quotient_bound(tree.body_moment_y(), m, COORD_LIMIT as int);
    }
}

/// A number between `-d * l` and `d * l` has a quotient by `d` between `-l`
/// and `l`.
pub proof fn lemma_quotient_bound(s: int, d: int, l: int)
    requires
        d > 0,
        l >= 0,
        -(d * l) <= s <= d * l,
    ensures
        -l <= s / d <= l,
{
    let q = s / d;
    let r = s % d;
    vstd::arithmetic::div_mod::lemma_fundamental_div_mod(s, d);
    vstd::arithmetic::div_mod::lemma_mod_bound(s, d);
    assert(-l <= q <= l) by (nonlinear_arith)
        requires
            s == d * q + r,
            0 <= r < d,
            d > 0,
            l >= 0,
            -(d * l) <= s <= d * l,
    ;
}

} // verus!
