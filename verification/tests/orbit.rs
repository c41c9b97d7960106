use galaxyy::barnes_hut::PointMass;
use galaxyy::body::{Body, Vec2};
use galaxyy::integrator::{
    adb6_numerator, rk4_numerator, Bootstrap, BootstrapAction, IntegratorADB6, ADB6_DENOMINATOR,
    HISTORY_SLOTS, RK4_DENOMINATOR,
};
use galaxyy::simulation::ModelNBody;

const SCALE: f64 = 16384.0;
const SOFTENING: f64 = 0.01;

#[derive(Clone, Copy, Debug, PartialEq)]
struct State {
    pos: (f64, f64),
    vel: (f64, f64),
    acc: (f64, f64),
}

#[derive(Clone, Copy, Debug, PartialEq)]
struct Sample {
    vel: (f64, f64),
    acc: (f64, f64),
}

fn plus(a: (f64, f64), s: f64, b: (f64, f64)) -> (f64, f64) {
    (a.0 + s * b.0, a.1 + s * b.1)
}

fn lattice(p: (f64, f64)) -> Vec2 {
    Vec2 { x: (p.0 * SCALE).round() as i64, y: (p.1 * SCALE).round() as i64 }
}

fn pull(at: (f64, f64), sources: &[PointMass]) -> (f64, f64) {
    let mut acc = (0.0, 0.0);
    for s in sources {
        let m = s.mass as f64;
        let dx = s.moment.x as f64 / m / SCALE - at.0;
        let dy = s.moment.y as f64 / m / SCALE - at.1;
        let r2 = dx * dx + dy * dy + if s.lump { 0.0 } else { SOFTENING };
        let r3 = r2 * r2.sqrt();
        acc = plus(acc, m / r3, (dx, dy));
    }
    acc
}

struct World {
    bodies: Vec<State>,
    model: ModelNBody,
}

impl World {
    fn two_bodies() -> World {
        let speed = (10000.0f64 / 30.0).sqrt();
        let bodies = vec![
            State { pos: (0.0, 0.0), vel: (0.0, 0.0), acc: (0.0, 0.0) },
            State { pos: (30.0, 0.0), vel: (0.0, speed), acc: (0.0, 0.0) },
        ];
        let model = ModelNBody::new(vec![
            Body { pos: lattice(bodies[0].pos), mass: 10000 },
            Body { pos: lattice(bodies[1].pos), mass: 1 },
        ])
        .ok()
        .unwrap();
        World { bodies, model }
    }

    fn evaluate(&mut self) {
        for (i, b) in self.bodies.iter().enumerate() {
            assert!(self.model.move_body(i, lattice(b.pos)));
        }
        let lists = self.model.eval().ok().unwrap();
        for (b, sources) in self.bodies.iter_mut().zip(lists.iter()) {
            if let Some(sources) = sources {
                b.acc = pull(b.pos, sources);
            }
        }
    }

    fn samples(&self) -> Vec<Sample> {
        self.bodies.iter().map(|b| Sample { vel: b.vel, acc: b.acc }).collect()
    }

    fn radius(&self) -> f64 {
        let dx = self.bodies[1].pos.0 - self.bodies[0].pos.0;
        let dy = self.bodies[1].pos.1 - self.bodies[0].pos.1;
        (dx * dx + dy * dy).sqrt()
    }
}

fn bootstrap(world: &mut World, history: &mut IntegratorADB6<Sample>, h: f64) {
    let mut start = world.bodies.clone();
    let mut k: Vec<Vec<Sample>> = vec![Vec::new(); 3];
    let mut plan = Bootstrap::new();
    while let Some(action) = plan.next() {
        match action {
            BootstrapAction::Snapshot => start = world.bodies.clone(),
            BootstrapAction::Evaluate => world.evaluate(),
            BootstrapAction::HalfStep { stage } => {
                k[stage] = world.samples();
                for (i, b) in world.bodies.iter_mut().enumerate() {
                    b.pos = plus(start[i].pos, h * 0.5, k[stage][i].vel);
                    b.vel = plus(start[i].vel, h * 0.5, k[stage][i].acc);
                }
            }
            BootstrapAction::Finish { slot } => {
                let last = world.samples();
                for (i, b) in world.bodies.iter_mut().enumerate() {
                    let all = [k[0][i], k[1][i], k[2][i], last[i]];
                    let mut pos = (0.0, 0.0);
                    let mut vel = (0.0, 0.0);
                    for (stage, sample) in all.iter().enumerate() {
                        let w = rk4_numerator(stage) as f64 / RK4_DENOMINATOR as f64;
                        pos = plus(pos, w, sample.vel);
                        vel = plus(vel, w, sample.acc);
                    }
                    b.pos = plus(start[i].pos, h, pos);
                    b.vel = plus(start[i].vel, h, vel);
                }
                history.set_slot(slot, &k[0]);
            }
            BootstrapAction::RecordNewest => history.set_slot(HISTORY_SLOTS - 1, &world.samples()),
        }
    }
}

fn step(world: &mut World, history: &mut IntegratorADB6<Sample>, h: f64) {
    for (i, b) in world.bodies.iter_mut().enumerate() {
        let mut pos = (0.0, 0.0);
        let mut vel = (0.0, 0.0);
        for (back, sample) in history.newest_first(i).iter().enumerate() {
            let w = adb6_numerator(back) as f64 / ADB6_DENOMINATOR as f64;
            pos = plus(pos, w, sample.vel);
            vel = plus(vel, w, sample.acc);
        }
        b.pos = plus(b.pos, h, pos);
        b.vel = plus(b.vel, h, vel);
    }
    history.single_step();
    world.evaluate();
    history.set_slot(HISTORY_SLOTS - 1, &world.samples());
}

#[test]
fn circular_orbit_keeps_its_radius_for_a_period() {
    let h = 1.0 / 100.0;
    let mut world = World::two_bodies();
    let zero = Sample { vel: (0.0, 0.0), acc: (0.0, 0.0) };
    let mut history = IntegratorADB6::new(2, zero);
    bootstrap(&mut world, &mut history, h);
    for k in 0..HISTORY_SLOTS {
        assert!(history.sample(k, 1) != zero);
    }
    assert_eq!(history.sample(HISTORY_SLOTS - 1, 1).vel, world.bodies[1].vel);
    let period = 2.0 * std::f64::consts::PI * 30.0 / (10000.0f64 / 30.0).sqrt();
    let steps = (period / h).ceil() as usize;
    assert_eq!(steps, 1033);
    let mut farthest = 0.0f64;
    for _ in 0..steps {
        step(&mut world, &mut history, h);
        farthest = farthest.max((world.radius() - 30.0).abs());
        assert_eq!(history.sample(HISTORY_SLOTS - 1, 0).acc, world.bodies[0].acc);
    }
    assert!(farthest < 0.3, "the radius left 30 by {}", farthest);
    // After one period the light body is back near where it began.
    let back = world.bodies[1].pos;
    let heavy = world.bodies[0].pos;
    assert!((back.0 - heavy.0 - 30.0).abs() < 0.3 && (back.1 - heavy.1).abs() < 1.5);
}

fn direct(bodies: &[State]) -> Vec<(f64, f64)> {
    let mass = [10000.0, 1.0];
    let mut acc = vec![(0.0, 0.0); 2];
    for i in 0..2 {
        let j = 1 - i;
        let dx = bodies[j].pos.0 - bodies[i].pos.0;
        let dy = bodies[j].pos.1 - bodies[i].pos.1;
        let r2 = dx * dx + dy * dy + SOFTENING;
        acc[i] = plus((0.0, 0.0), mass[j] / (r2 * r2.sqrt()), (dx, dy));
    }
    acc
}

fn runge_kutta(bodies: &mut Vec<State>, h: f64) {
    let start = bodies.clone();
    let mut k: Vec<Vec<Sample>> = Vec::new();
    for stage in 0..4 {
        let acc = direct(bodies);
        k.push(bodies.iter().zip(acc).map(|(b, a)| Sample { vel: b.vel, acc: a }).collect());
        if stage < 3 {
            let part = if stage == 2 { h } else { h * 0.5 };
            for (i, b) in bodies.iter_mut().enumerate() {
                b.pos = plus(start[i].pos, part, k[stage][i].vel);
                b.vel = plus(start[i].vel, part, k[stage][i].acc);
            }
        }
    }
    for (i, b) in bodies.iter_mut().enumerate() {
        let mut pos = (0.0, 0.0);
        let mut vel = (0.0, 0.0);
        for stage in 0..4 {
            let w = rk4_numerator(stage) as f64 / RK4_DENOMINATOR as f64;
            pos = plus(pos, w, k[stage][i].vel);
            vel = plus(vel, w, k[stage][i].acc);
        }
        b.pos = plus(start[i].pos, h, pos);
        b.vel = plus(start[i].vel, h, vel);
    }
}

#[test]
fn bootstrap_and_five_steps_follow_the_orbit_of_small_runge_kutta_steps() {
    let h = 1.0 / 4096.0;
    let mut world = World::two_bodies();
    let zero = Sample { vel: (0.0, 0.0), acc: (0.0, 0.0) };
    let mut history = IntegratorADB6::new(2, zero);
    bootstrap(&mut world, &mut history, h);
    for _ in 0..5 {
        step(&mut world, &mut history, h);
    }
    let mut reference = World::two_bodies().bodies;
    for _ in 0..40 {
        runge_kutta(&mut reference, h / 4.0);
    }
    for i in 0..2 {
        assert!((world.bodies[i].pos.0 - reference[i].pos.0).abs() < 1e-6);
        assert!((world.bodies[i].pos.1 - reference[i].pos.1).abs() < 1e-6);
    }
    // The light body has moved on by ten steps of its orbital speed.
    let moved = world.bodies[1].pos.1;
    assert!((moved - 10.0 * h * (10000.0f64 / 30.0).sqrt()).abs() < 1e-4);
}
