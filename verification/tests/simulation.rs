use galaxyy::barnes_hut::{Nested, PointMass, TreeError, GRAIN, ROI_LIMIT};
use galaxyy::body::{Body, Vec2, COORD_LIMIT, MASS_LIMIT};
use galaxyy::simulation::{region_half_side, ModelError, ModelNBody};

fn at(x: i64, y: i64, mass: u64) -> Body {
    Body { pos: Vec2 { x, y }, mass }
}

#[test]
fn region_half_side_is_the_extent_widened_and_rounded_up() {
    assert_eq!(region_half_side(0), 1);
    assert_eq!(region_half_side(1), 2);
    assert_eq!(region_half_side(2), 4);
    assert_eq!(region_half_side(5), 8);
    assert_eq!(region_half_side(6), 10);
    assert_eq!(region_half_side(10), 16);
    assert_eq!(region_half_side(11), 18);
    assert_eq!(region_half_side(40), 63);
    assert_eq!(region_half_side(41), 65);
    assert_eq!(region_half_side(80), 126);
    assert_eq!(region_half_side(2 * COORD_LIMIT), 52_848_231);
    assert!(region_half_side(2 * COORD_LIMIT) <= ROI_LIMIT);
}

#[test]
fn two_bodies_forty_apart_get_a_half_side_of_sixty_three() {
    let model = ModelNBody::new(vec![at(0, 0, 1), at(40, 0, 1)]).ok().unwrap();
    assert_eq!(model.roi, 63);
    assert_eq!(model.center, Vec2 { x: 20, y: 0 });
    assert_eq!(model.tree.side, 126 * GRAIN);
}

#[test]
fn new_lays_the_region_around_the_bounding_box() {
    let model = ModelNBody::new(vec![at(-3, 0, 1), at(7, 4, 2), at(1, 9, 3)]).ok().unwrap();
    assert_eq!(model.center, Vec2 { x: 2, y: 4 });
    assert_eq!(model.roi, 16);
    assert_eq!(model.bodies.len(), 3);
    assert!(matches!(model.tree.nested, Nested::Empty));
}

#[test]
fn new_rounds_the_midpoint_down() {
    let model = ModelNBody::new(vec![at(-4, -3, 1), at(1, 0, 1)]).ok().unwrap();
    assert_eq!(model.center, Vec2 { x: -2, y: -2 });
    assert_eq!(model.roi, 8);
}

#[test]
fn new_refuses_what_cannot_be_simulated() {
    assert!(matches!(ModelNBody::new(vec![]), Err(ModelError::NoBodies)));
    assert!(matches!(
        ModelNBody::new(vec![at(0, 0, 1), at(1, 1, 0)]),
        Err(ModelError::InvalidBody(1))
    ));
    assert!(matches!(
        ModelNBody::new(vec![at(COORD_LIMIT + 1, 0, 1)]),
        Err(ModelError::InvalidBody(0))
    ));
    assert!(matches!(
        ModelNBody::new(vec![at(0, 0, MASS_LIMIT), at(1, 1, 1)]),
        Err(ModelError::TooHeavy)
    ));
    assert!(ModelNBody::new(vec![at(0, 0, MASS_LIMIT - 1), at(1, 1, 1)]).is_ok());
}

#[test]
fn build_tree_conserves_mass_and_finds_the_center_of_mass() {
    let mut model =
        ModelNBody::new(vec![at(0, 0, 3), at(10, 0, 1), at(0, 10, 1), at(10, 10, 5)]).ok().unwrap();
    assert_eq!(model.center, Vec2 { x: 5, y: 5 });
    assert_eq!(model.roi, 16);
    assert_eq!(model.build_tree(), Ok(()));
    assert_eq!(model.tree.mass, 10);
    assert_eq!(model.tree.moment, Vec2 { x: 60, y: 60 });
    assert_eq!(model.center, Vec2 { x: 6, y: 6 });
    assert_eq!(model.tree.lower, Vec2 { x: -11 * GRAIN, y: -11 * GRAIN });
    assert_eq!(model.tree.side, 32 * GRAIN);
}

#[test]
fn bodies_that_left_the_region_are_left_out_of_the_tree() {
    let mut model = ModelNBody::new(vec![at(0, 0, 2), at(4, 4, 2)]).ok().unwrap();
    assert_eq!((model.center, model.roi), (Vec2 { x: 2, y: 2 }, 7));
    assert!(model.move_body(1, Vec2 { x: 10, y: 2 }));
    assert_eq!(model.build_tree(), Ok(()));
    assert_eq!(model.tree.mass, 2);
    assert_eq!(model.center, Vec2 { x: 0, y: 0 });
    assert!(model.move_body(1, Vec2 { x: 8, y: 0 }));
    assert_eq!(model.build_tree(), Ok(()));
    assert_eq!(model.tree.mass, 2);
    assert!(model.move_body(1, Vec2 { x: 7, y: 0 }));
    assert_eq!(model.build_tree(), Ok(()));
    assert_eq!(model.tree.mass, 4);
    assert_eq!(model.center, Vec2 { x: 3, y: 0 });
}

#[test]
fn region_without_bodies_keeps_its_center() {
    let mut model = ModelNBody::new(vec![at(0, 0, 2)]).ok().unwrap();
    assert_eq!((model.center, model.roi), (Vec2 { x: 0, y: 0 }, 1));
    assert!(model.move_body(0, Vec2 { x: 5, y: 5 }));
    assert_eq!(model.build_tree(), Ok(()));
    assert_eq!(model.tree.mass, 0);
    assert_eq!(model.center, Vec2 { x: 0, y: 0 });
    let lists = model.eval().ok().unwrap();
    assert_eq!(lists, vec![None]);
}

#[test]
fn move_body_refuses_bad_indices_and_positions() {
    let mut model = ModelNBody::new(vec![at(0, 0, 2), at(4, 4, 2)]).ok().unwrap();
    assert!(!model.move_body(2, Vec2 { x: 0, y: 0 }));
    assert!(!model.move_body(0, Vec2 { x: COORD_LIMIT + 1, y: 0 }));
    assert_eq!(model.bodies, vec![at(0, 0, 2), at(4, 4, 2)]);
    assert!(model.move_body(0, Vec2 { x: -1, y: 3 }));
    assert_eq!(model.bodies, vec![at(-1, 3, 2), at(4, 4, 2)]);
}

#[test]
fn coincident_bodies_stop_the_build() {
    let mut model = ModelNBody::new(vec![at(0, 0, 2), at(4, 4, 2), at(2, 1, 1)]).ok().unwrap();
    assert!(model.move_body(2, Vec2 { x: 4, y: 4 }));
    let center = model.center;
    assert_eq!(
        model.build_tree(),
        Err(TreeError::Coincident { incumbent: at(4, 4, 2), incoming: at(4, 4, 1) })
    );
    assert_eq!(model.center, center);
    assert!(model.eval().is_err());
}

#[test]
fn coincident_renegades_are_no_error() {
    let mut model = ModelNBody::new(vec![at(0, 0, 2), at(4, 4, 2), at(2, 1, 1)]).ok().unwrap();
    assert!(model.move_body(1, Vec2 { x: 100, y: 100 }));
    assert!(model.move_body(2, Vec2 { x: 100, y: 100 }));
    assert_eq!(model.build_tree(), Ok(()));
    assert_eq!(model.tree.mass, 2);
}

#[test]
fn eval_gives_every_body_its_sources() {
    let mut model = ModelNBody::new(vec![at(0, 0, 3), at(2, 0, 1), at(200, 0, 7)]).ok().unwrap();
    let lists = model.eval().ok().unwrap();
    assert_eq!(lists.len(), 3);
    // The far body sees the close pair as one lump; each of the pair sees
    // the other and the far body.
    assert_eq!(
        lists[2],
        Some(vec![PointMass { mass: 4, moment: Vec2 { x: 2, y: 0 }, lump: true }])
    );
    assert_eq!(
        lists[0],
        Some(vec![
            PointMass { mass: 7, moment: Vec2 { x: 1400, y: 0 }, lump: false },
            PointMass { mass: 1, moment: Vec2 { x: 2, y: 0 }, lump: false },
        ])
    );
    assert_eq!(
        lists[1],
        Some(vec![
            PointMass { mass: 7, moment: Vec2 { x: 1400, y: 0 }, lump: false },
            PointMass { mass: 3, moment: Vec2 { x: 0, y: 0 }, lump: false },
        ])
    );
    assert_eq!(model.tree.mass, 11);
}

fn pull(sources: &[PointMass], x: f64, y: f64) -> (f64, f64) {
    let mut ax = 0.0;
    let mut ay = 0.0;
    for s in sources {
        let m = s.mass as f64;
        let dx = s.moment.x as f64 / m - x;
        let dy = s.moment.y as f64 / m - y;
        let r2 = dx * dx + dy * dy;
        let r3 = r2 * r2.sqrt();
        ax += m * dx / r3;
        ay += m * dy / r3;
    }
    (ax, ay)
}

#[test]
fn tree_force_is_close_to_the_direct_sum() {
    // A thousand bodies in a square of side 1000 and a probe ten sides
    // away: the tree's answer is within one percent of the direct sum.
    let mut seed: u64 = 0x2545_f491_4f6c_dd1d;
    let mut next = || {
        seed ^= seed << 13;
        seed ^= seed >> 7;
        seed ^= seed << 17;
        seed
    };
    let mut bodies = Vec::new();
    let mut taken = std::collections::HashSet::new();
    while bodies.len() < 1000 {
        let x = (next() % 1000) as i64;
        let y = (next() % 1000) as i64;
        let mass = 1 + next() % 20;
        if taken.insert((x, y)) {
            bodies.push(at(x, y, mass));
        }
    }
    let probe = at(10_000, 10_000, 1);
    bodies.push(probe);
    let direct: Vec<PointMass> = bodies[..1000]
        .iter()
        .map(|b| PointMass {
            mass: b.mass,
            moment: Vec2 { x: b.mass as i64 * b.pos.x, y: b.mass as i64 * b.pos.y },
            lump: false,
        })
        .collect();
    let mut model = ModelNBody::new(bodies).ok().unwrap();
    let lists = model.eval().ok().unwrap();
    let from_tree = lists[1000].as_ref().unwrap();
    assert!(from_tree.len() < 100);
    assert!(from_tree.iter().any(|s| s.lump));
    let total: u64 = from_tree.iter().map(|s| s.mass).sum();
    assert_eq!(total, direct.iter().map(|s| s.mass).sum::<u64>());
    let (ex, ey) = pull(&direct, 10_000.0, 10_000.0);
    let (tx, ty) = pull(from_tree, 10_000.0, 10_000.0);
    let error = ((tx - ex).powi(2) + (ty - ey).powi(2)).sqrt();
    let size = (ex * ex + ey * ey).sqrt();
    assert!(error / size < 1e-2);
}

#[test]
fn a_pair_pulls_on_each_other_with_opposite_forces() {
    let mut model = ModelNBody::new(vec![at(-3, 1, 4), at(5, -2, 9)]).ok().unwrap();
    let lists = model.eval().ok().unwrap();
    let (ax, ay) = pull(lists[0].as_ref().unwrap(), -3.0, 1.0);
    let (bx, by) = pull(lists[1].as_ref().unwrap(), 5.0, -2.0);
    assert!((ax * 4.0 + bx * 9.0).abs() < 1e-12);
    assert!((ay * 4.0 + by * 9.0).abs() < 1e-12);
}

#[test]
fn a_body_outside_the_region_gets_no_pull_from_the_tree() {
    let mut model = ModelNBody::new(vec![at(0, 0, 3), at(1, 0, 4), at(0, 1, 5)]).ok().unwrap();
    assert_eq!((model.center, model.roi), (Vec2 { x: 0, y: 0 }, 2));
    assert!(model.move_body(1, Vec2 { x: 100, y: 0 }));
    let lists = model.eval().ok().unwrap();
    assert_eq!(lists.len(), 3);
    assert_eq!(lists[1], None);
    // The bodies inside are pulled as if the one outside were not there.
    assert_eq!(
        lists[0],
        Some(vec![PointMass { mass: 5, moment: Vec2 { x: 0, y: 5 }, lump: false }])
    );
    assert_eq!(
        lists[2],
        Some(vec![PointMass { mass: 3, moment: Vec2 { x: 0, y: 0 }, lump: false }])
    );
    assert_eq!(model.tree.mass, 8);
    let mut without = ModelNBody::new(vec![at(0, 0, 3), at(0, 1, 5)]).ok().unwrap();
    without.center = Vec2 { x: 0, y: 0 };
    without.roi = 2;
    let alone = without.eval().ok().unwrap();
    assert_eq!(alone, vec![lists[0].clone(), lists[2].clone()]);
    // Back inside, it is pulled again.
    assert!(model.move_body(1, Vec2 { x: 2, y: 0 }));
    let lists = model.eval().ok().unwrap();
    assert!(lists[1].is_some());
}
