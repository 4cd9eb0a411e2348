//! The per-tick orchestrator.
//!
//! Each tick: animals eat any food within reach (eaten food reappears at a
//! fresh random spot), every brain turns its senses into a speed and a
//! turn, every animal moves and wraps on the torus, and the age counter
//! advances.  When the age passes its threshold the whole population is
//! handed to the genetic algorithm, the newcomers are scattered, the food
//! is rerolled, and the generation's statistics come back.  The simulation
//! invariant `wf` holds positions inside the unit square after every step,
//! however many are taken.

use vstd::prelude::*;
use crate::fixed::SCALE;
use crate::fixed::fx_add;
use crate::fixed::fx_mul;
use crate::fixed::lemma_fx_mul_bounded;
use crate::fixed::mul_unit;
use crate::fixed::sat_add;
use crate::genetics;
use crate::genetics::Individual;
use crate::genetics::MutationParams;
use crate::genetics::Statistics;
use crate::genetics::fitnesses;
use crate::genetics::pop_m;
use crate::genetics::evolve_upto;
use crate::genetics::spec_statistics;
use crate::network::lemma_net_genes_len;
use crate::network::lemma_net_out_len;
use crate::network::lemma_wf_accepts;
use crate::network::net_m;
use crate::network::net_out_from;
use crate::rng::Prng;
use crate::rng::lcg_iter2;
use crate::rng::lcg_step2;
use crate::rng::lemma_lcg_iter2_add;
use crate::trig::TAU_FX;
use crate::trig::cos_fx;
use crate::trig::cosine;
use crate::trig::sin_fx;
use crate::trig::sine;
use crate::world::Animal;
use crate::world::EAT_RADIUS;
use crate::world::Food;
use crate::world::Position;
use crate::world::Rotation;
use crate::world::animal_pinned;
use crate::world::dist_sq;
use crate::world::food_pinned;
use crate::world::angle_draw;
use crate::world::unit_draw;
use crate::world::SPEED_MAX;
use crate::world::SPEED_MIN;
use crate::world::World;
use crate::world::lemma_topology_genes_len;
use crate::world::random_position;
use crate::world::random_rotation;
use crate::world::topology_m;
use crate::world::wrap_into;
use crate::world::zero_vision;

verus! {

/// How many animals a world holds.
pub const ANIMAL_COUNT: usize = 40;

/// How many foods a world holds.
pub const FOOD_COUNT: usize = 60;

/// How many ticks pass between generations.
pub const AGE_LIMIT: u64 = 2500;

/// How strongly the speed output accelerates, per tick (millionths).
pub const SPEED_ACCEL: i64 = 20;

/// How strongly the rotation output turns, per tick (millionths).
pub const TURN_FACTOR: i64 = 100000;

/// One half, fixed-point: the neutral rotation signal.
pub const HALF_UNIT: i64 = 500000;

/// The chance that mutation perturbs a gene (millionths).
pub const MUTATION_CHANCE: i64 = 10000;

/// The largest mutation perturbation (millionths).
pub const MUTATION_COEFF: i64 = 300000;

/// The fitness column of a world: each animal's satiation.
pub open spec fn world_fits(w: World) -> Seq<u32> {
    Seq::new(w.animals@.len(), |i: int| w.animals@[i].satiation)
}

/// A control signal clipped into `[0, 1]`.
pub open spec fn clamp_unit(v: int) -> int {
    if v < 0 {
        0
    } else if v > SCALE {
        SCALE as int
    } else {
        v
    }
}

/// A speed clipped into its band.
pub open spec fn clamp_speed(v: int) -> int {
    if v < crate::world::SPEED_MIN {
        crate::world::SPEED_MIN as int
    } else if v > crate::world::SPEED_MAX {
        crate::world::SPEED_MAX as int
    } else {
        v
    }
}

/// What one brain pass does to an animal: the two network outputs,
/// clipped into `[0, 1]`, accelerate it (speed clamped into its band) and
/// turn it (heading wrapped into `[0, tau)`).  Nothing else changes.
pub open spec fn brain_update(a: Animal) -> Animal {
    let out = net_out_from(net_m(a.brain), 0, zero_vision());
    let sp = clamp_unit(out[0] as int);
    let rt = clamp_unit(out[1] as int);
    Animal {
        position: a.position,
        rotation: Rotation {
            angle: ((a.rotation.angle + fx_mul(rt - HALF_UNIT, TURN_FACTOR as int)) % (
            TAU_FX as int)) as i64,
        },
        speed: clamp_speed(fx_add(a.speed as int, fx_mul(sp, SPEED_ACCEL as int))) as i64,
        brain: a.brain,
        chromosome: a.chromosome,
        satiation: a.satiation,
    }
}

/// What one movement pass does to an animal: it advances along its
/// heading at its speed and wraps back into the unit square.
pub open spec fn move_update(a: Animal) -> Animal {
    let dx = fx_mul(cos_fx(a.rotation.angle as int), a.speed as int);
    let dy = fx_mul(sin_fx(a.rotation.angle as int), a.speed as int);
    Animal {
        position: Position {
            x: ((a.position.x + dx) % (SCALE as int)) as i64,
            y: ((a.position.y + dy) % (SCALE as int)) as i64,
        },
        rotation: a.rotation,
        speed: a.speed,
        brain: a.brain,
        chromosome: a.chromosome,
        satiation: a.satiation,
    }
}

/// Whether the food sits within eating distance: its rounded-down
/// Euclidean distance is at most `EAT_RADIUS`.
pub open spec fn within_reach(p: Position, q: Position) -> bool {
    dist_sq(p, q) <= EAT_RADIUS * EAT_RADIUS + 2 * EAT_RADIUS
}

/// The rounded-down distance is within the radius exactly when the
/// squared distance is.
proof fn lemma_reach_iff(p: Position, q: Position, r: i64)
    requires
        0 <= r,
        (r as int) * (r as int) <= dist_sq(p, q),
        dist_sq(p, q) < (r as int + 1) * (r as int + 1),
    ensures
        (r <= EAT_RADIUS) <==> within_reach(p, q),
{
    if r <= EAT_RADIUS {
        assert((r as int + 1) * (r as int + 1) <= 10001 * 10001) by (nonlinear_arith)
            requires
                0 <= r <= 10000,
        ;
    } else {
        assert((r as int) * (r as int) >= 10001 * 10001) by (nonlinear_arith)
            requires
                r >= 10001,
        ;
    }
}

/// One animal walking the food row from index `j`: every morsel within
/// reach feeds it by one and reappears at the next two unit draws of the
/// stream; the rest stay put.
#[verifier::opaque]
pub open spec fn collide_one(a: Animal, foods: Seq<Food>, j: int, s: int) -> (Animal, Seq<Food>, int)
    decreases foods.len() - j,
{
    if j < 0 || j >= foods.len() {
        (a, foods, s)
    } else if within_reach(a.position, foods[j].position) {
        let a2 = Animal {
            position: a.position,
            rotation: a.rotation,
            speed: a.speed,
            brain: a.brain,
            chromosome: a.chromosome,
            satiation: (a.satiation + 1) as u32,
        };
        let f2 = Food {
            position: Position { x: unit_draw(s) as i64, y: unit_draw(lcg_step2(s)) as i64 },
        };
        collide_one(a2, foods.update(j, f2), j + 1, lcg_step2(lcg_step2(s)))
    } else {
        collide_one(a, foods, j + 1, s)
    }
}

/// Spells one step of the food row walk out.
proof fn lemma_collide_one_unfold(a: Animal, foods: Seq<Food>, j: int, s: int)
    ensures
        collide_one(a, foods, j, s) == (if j < 0 || j >= foods.len() {
            (a, foods, s)
        } else if within_reach(a.position, foods[j].position) {
            let a2 = Animal {
                position: a.position,
                rotation: a.rotation,
                speed: a.speed,
                brain: a.brain,
                chromosome: a.chromosome,
                satiation: (a.satiation + 1) as u32,
            };
            let f2 = Food {
                position: Position { x: unit_draw(s) as i64, y: unit_draw(lcg_step2(s)) as i64 },
            };
            collide_one(a2, foods.update(j, f2), j + 1, lcg_step2(lcg_step2(s)))
        } else {
            collide_one(a, foods, j + 1, s)
        }),
{
    reveal(collide_one);
}

/// The whole collision pass: animals in order, each walking the current
/// food row, threading the random stream through.
#[verifier::opaque]
pub open spec fn collide_all(animals: Seq<Animal>, foods: Seq<Food>, i: int, s: int) -> (
    Seq<Animal>,
    Seq<Food>,
    int,
)
    decreases animals.len() - i,
{
    if i < 0 || i >= animals.len() {
        (animals, foods, s)
    } else {
        let t = collide_one(animals[i], foods, 0, s);
        collide_all(animals.update(i, t.0), t.1, i + 1, t.2)
    }
}

/// Spells one step of the collision pass out.
proof fn lemma_collide_all_unfold(animals: Seq<Animal>, foods: Seq<Food>, i: int, s: int)
    ensures
        collide_all(animals, foods, i, s) == (if i < 0 || i >= animals.len() {
            (animals, foods, s)
        } else {
            let t = collide_one(animals[i], foods, 0, s);
            collide_all(animals.update(i, t.0), t.1, i + 1, t.2)
        }),
{
    reveal(collide_all);
}

/// One tick's effect on the cast and the stream: collisions feed and
/// reroll food, then every brain steers, then everyone moves.
pub open spec fn tick_cast(animals: Seq<Animal>, foods: Seq<Food>, s: int) -> (
    Seq<Animal>,
    Seq<Food>,
    int,
) {
    let c = collide_all(animals, foods, 0, s);
    (Seq::new(c.0.len(), |i: int| move_update(brain_update(c.0[i]))), c.1, c.2)
}

/// The cast, food and stream after the tick that reaches the generation
/// boundary: the pre-replacement population whose statistics the boundary
/// reports.
pub open spec fn run_to_boundary(animals: Seq<Animal>, foods: Seq<Food>, age: u64, s: int) -> (
    Seq<Animal>,
    Seq<Food>,
    int,
)
    decreases AGE_LIMIT - age,
{
    let t = tick_cast(animals, foods, s);
    if age >= AGE_LIMIT {
        t
    } else {
        run_to_boundary(t.0, t.1, (age + 1) as u64, t.2)
    }
}

/// Determinism: a tick and the run to the boundary are functions of the
/// world and the random source's state alone, so two simulations with
/// equal worlds, equal ages and sources in equal states — seeded alike,
/// in particular — stay equal, tick for tick.  `step` and `train` pin
/// their results to these functions, so equal-seed runs produce
/// identical snapshots.
pub proof fn lemma_run_deterministic(
    a1: Seq<Animal>,
    f1: Seq<Food>,
    g1: u64,
    s1: int,
    a2: Seq<Animal>,
    f2: Seq<Food>,
    g2: u64,
    s2: int,
)
    requires
        a1 == a2,
        f1 == f2,
        g1 == g2,
        s1 == s2,
    ensures
        tick_cast(a1, f1, s1) == tick_cast(a2, f2, s2),
        run_to_boundary(a1, f1, g1, s1) == run_to_boundary(a2, f2, g2, s2),
{
}

/// The fixed cast is present and everyone in it is well-formed.
pub open spec fn wf_cast(w: World) -> bool {
    &&& w.animals@.len() == ANIMAL_COUNT
    &&& w.foods@.len() == FOOD_COUNT
    &&& forall|i: int| 0 <= i < w.animals@.len() ==> (#[trigger] w.animals@[i]).wf()
    &&& forall|j: int| 0 <= j < w.foods@.len() ==> (#[trigger] w.foods@[j]).position.wf()
}

/// The simulation: a world, the mutation configuration, and the ticks
/// since the last generation boundary.
pub struct Simulation {
    pub world: World,
    pub params: MutationParams,
    pub age: u64,
}

impl Simulation {
    /// The standing invariant: a well-formed cast, a bounded age, nobody
    /// fed faster than one food per tick per morsel, and the fixed
    /// strategy configuration.
    pub open spec fn wf(self) -> bool {
        &&& wf_cast(self.world)
        &&& self.age <= AGE_LIMIT
        &&& forall|i: int|
            0 <= i < self.world.animals@.len() ==> (#[trigger] self.world.animals@[i]).satiation
                <= self.age * 60
        &&& self.params.chance == MUTATION_CHANCE
        &&& self.params.coefficient == MUTATION_COEFF
    }

    /// A fresh simulation: a random world and a zero age.
    pub fn random(rng: &mut Prng) -> (r: Simulation)
        requires
            old(rng).wf(),
        ensures
            final(rng).wf(),
            r.wf(),
            r.age == 0,
            forall|i: int|
                0 <= i < ANIMAL_COUNT ==> animal_pinned(
                    #[trigger] r.world.animals@[i],
                    lcg_iter2(old(rng).state as int, (i * 197) as nat),
                ),
            forall|j: int|
                0 <= j < FOOD_COUNT ==> food_pinned(
                    #[trigger] r.world.foods@[j],
                    lcg_iter2(old(rng).state as int, (ANIMAL_COUNT * 197 + j * 2) as nat),
                ),
            final(rng).state == lcg_iter2(
                old(rng).state as int,
                (ANIMAL_COUNT * 197 + FOOD_COUNT * 2) as nat,
            ),
    {
        let world = World::random(rng, ANIMAL_COUNT, FOOD_COUNT);
        let r = Simulation {
            world,
            params: MutationParams { chance: MUTATION_CHANCE, coefficient: MUTATION_COEFF },
            age: 0,
        };
        proof {
            assert forall|i: int| 0 <= i < r.world.animals@.len() implies (
            #[trigger] r.world.animals@[i]).satiation <= r.age * 60 by {
                assert(animal_pinned(
                    r.world.animals@[i],
                    lcg_iter2(old(rng).state as int, (i * 197) as nat),
                ));
            }
        }
        r
    }

    /// The world, read-only, for rendering.
    pub fn world(&self) -> (r: &World)
        ensures
            *r == self.world,
    {
        &self.world
    }

    /// Collision processing: every animal eats every food within reach;
    /// an eaten food reappears at a fresh random spot.  Nothing else about
    /// an animal changes, and nobody gains more than one satiation point
    /// per food.
    fn process_collisions(&mut self, rng: &mut Prng)
        requires
            old(rng).wf(),
            wf_cast(old(self).world),
            forall|i: int|
                0 <= i < old(self).world.animals@.len() ==> (
                #[trigger] old(self).world.animals@[i]).satiation <= 150000,
        ensures
            final(rng).wf(),
            wf_cast(final(self).world),
            final(self).age == old(self).age,
            final(self).params == old(self).params,
            final(self).world.animals@.len() == old(self).world.animals@.len(),
            ({
                let t = collide_all(
                    old(self).world.animals@,
                    old(self).world.foods@,
                    0,
                    old(rng).state as int,
                );
                &&& final(self).world.animals@ == t.0
                &&& final(self).world.foods@ == t.1
                &&& final(rng).state == t.2
            }),
            forall|i: int|
                0 <= i < final(self).world.animals@.len() ==> {
                    let a = #[trigger] final(self).world.animals@[i];
                    let b = old(self).world.animals@[i];
                    &&& a.position == b.position
                    &&& a.rotation == b.rotation
                    &&& a.speed == b.speed
                    &&& a.brain == b.brain
                    &&& a.chromosome@ == b.chromosome@
                    &&& b.satiation <= a.satiation <= b.satiation + 60
                },
    {
        let ghost olda = self.world.animals@;
        let ghost oldf = self.world.foods@;
        let ghost s0 = rng.state as int;
        let mut olds: Vec<Animal> = Vec::new();
        core::mem::swap(&mut olds, &mut self.world.animals);
        let mut news: Vec<Animal> = Vec::new();
        let ghost n = olda.len();
        proof {
            assert(news@ + olds@ =~= olda);
        }
        while olds.len() > 0
            invariant
                rng.wf(),
                self.age == old(self).age,
                self.params == old(self).params,
                n == olda.len(),
                news@.len() + olds@.len() == n,
                olds@ == olda.subrange(news@.len() as int, n as int),
                collide_all(olda, oldf, 0, s0) == collide_all(
                    news@ + olds@,
                    self.world.foods@,
                    news@.len() as int,
                    rng.state as int,
                ),
                self.world.foods@.len() == FOOD_COUNT,
                forall|i: int| 0 <= i < n ==> (#[trigger] olda[i]).wf(),
                forall|i: int| 0 <= i < n ==> (#[trigger] olda[i]).satiation <= 150000,
                forall|j: int|
                    0 <= j < self.world.foods@.len() ==> (
                    #[trigger] self.world.foods@[j]).position.wf(),
                forall|k: int|
                    0 <= k < news@.len() ==> {
                        let a = #[trigger] news@[k];
                        let b = olda[k];
                        &&& a.position == b.position
                        &&& a.rotation == b.rotation
                        &&& a.speed == b.speed
                        &&& a.brain == b.brain
                        &&& a.chromosome@ == b.chromosome@
                        &&& b.satiation <= a.satiation <= b.satiation + 60
                        &&& a.wf()
                    },
            decreases olds@.len(),
        {
            let ghost i = news@.len() as int;
            let ghost cur0 = news@ + olds@;
            let ghost f0 = self.world.foods@;
            let ghost s_a = rng.state as int;
            let mut a = olds.remove(0);
            proof {
                assert(a == olda[i]);
                assert(olds@ =~= olda.subrange(i + 1, n as int));
            }
            let ghost sat0 = a.satiation;
            let mut j: usize = 0;
            while j < self.world.foods.len()
                invariant
                    rng.wf(),
                    self.age == old(self).age,
                    self.params == old(self).params,
                    collide_one(olda[i], f0, 0, s_a) == collide_one(
                        a,
                        self.world.foods@,
                        j as int,
                        rng.state as int,
                    ),
                    j <= self.world.foods@.len(),
                    self.world.foods@.len() == FOOD_COUNT,
                    a.position == olda[i].position,
                    a.rotation == olda[i].rotation,
                    a.speed == olda[i].speed,
                    a.brain == olda[i].brain,
                    a.chromosome@ == olda[i].chromosome@,
                    0 <= i < n == olda.len(),
                    olda[i].wf(),
                    a.wf(),
                    sat0 == olda[i].satiation,
                    sat0 <= 150000,
                    sat0 <= a.satiation <= sat0 + j,
                    forall|q: int|
                        0 <= q < self.world.foods@.len() ==> (
                        #[trigger] self.world.foods@[q]).position.wf(),
                decreases self.world.foods@.len() - j,
            {
                let ghost aj = a;
                let ghost fj = self.world.foods@;
                let ghost sj = rng.state as int;
                let food = self.world.foods[j];
                let d = a.position.distance(&food.position);
                proof {
                    lemma_reach_iff(a.position, food.position, d);
                    lemma_collide_one_unfold(aj, fj, j as int, sj);
                }
                if d <= EAT_RADIUS {
                    a.satiation = a.satiation + 1;
                    let f = Food::random(rng);
                    self.world.foods.set(j, f);
                    proof {
                        assert(lcg_iter2(sj, 1nat) == lcg_step2(lcg_iter2(sj, 0nat)));
                        assert(lcg_iter2(sj, 2nat) == lcg_step2(lcg_iter2(sj, 1nat)));
                        assert(a == (Animal {
                            position: aj.position,
                            rotation: aj.rotation,
                            speed: aj.speed,
                            brain: aj.brain,
                            chromosome: aj.chromosome,
                            satiation: (aj.satiation + 1) as u32,
                        }));
                        assert(f == (Food {
                            position: Position {
                                x: unit_draw(sj) as i64,
                                y: unit_draw(lcg_step2(sj)) as i64,
                            },
                        }));
                        assert(self.world.foods@ == fj.update(j as int, f));
                        assert(collide_one(aj, fj, j as int, sj) == collide_one(
                            a,
                            self.world.foods@,
                            j as int + 1,
                            rng.state as int,
                        ));
                    }
                } else {
                    proof {
                        assert(collide_one(aj, fj, j as int, sj) == collide_one(
                            a,
                            self.world.foods@,
                            j as int + 1,
                            rng.state as int,
                        ));
                    }
                }
                j = j + 1;
            }
            proof {
                lemma_collide_one_unfold(a, self.world.foods@, j as int, rng.state as int);
                assert(collide_one(olda[i], f0, 0, s_a) == (a, self.world.foods@, rng.state as int));
                lemma_collide_all_unfold(cur0, f0, i, s_a);
                assert(cur0[i] == olda[i]);
            }
            news.push(a);
            proof {
                assert(cur0.update(i, a) =~= news@ + olds@);
                assert(collide_all(olda, oldf, 0, s0) == collide_all(
                    news@ + olds@,
                    self.world.foods@,
                    news@.len() as int,
                    rng.state as int,
                ));
            }
        }
        proof {
            lemma_collide_all_unfold(news@ + olds@, self.world.foods@, news@.len() as int, rng.state as int);
            assert(news@ + olds@ =~= news@);
        }
        self.world.animals = news;
    }

    /// Brain processing: each animal feeds its senses through its network
    /// and applies the two outputs — speed (clamped into its band) and a
    /// turn (wrapped into `[0, tau)`).  Places and satiation stay put.
    fn process_brains(&mut self)
        requires
            wf_cast(old(self).world),
        ensures
            wf_cast(final(self).world),
            final(self).age == old(self).age,
            final(self).params == old(self).params,
            final(self).world.foods@ == old(self).world.foods@,
            final(self).world.animals@.len() == old(self).world.animals@.len(),
            forall|i: int|
                0 <= i < final(self).world.animals@.len() ==> {
                    let a = #[trigger] final(self).world.animals@[i];
                    let b = old(self).world.animals@[i];
                    &&& a == brain_update(b)
                    &&& a.position == b.position
                    &&& a.brain == b.brain
                    &&& a.chromosome@ == b.chromosome@
                    &&& a.satiation == b.satiation
                    &&& a.wf()
                },
    {
        let ghost olda = self.world.animals@;
        let mut olds: Vec<Animal> = Vec::new();
        core::mem::swap(&mut olds, &mut self.world.animals);
        let mut news: Vec<Animal> = Vec::new();
        let ghost n = olda.len();
        while olds.len() > 0
            invariant
                self.age == old(self).age,
                self.params == old(self).params,
                n == olda.len(),
                news@.len() + olds@.len() == n,
                olds@ == olda.subrange(news@.len() as int, n as int),
                self.world.foods@ == old(self).world.foods@,
                forall|i: int| 0 <= i < n ==> (#[trigger] olda[i]).wf(),
                forall|k: int|
                    0 <= k < news@.len() ==> {
                        let a = #[trigger] news@[k];
                        let b = olda[k];
                        &&& a == brain_update(b)
                        &&& a.position == b.position
                        &&& a.brain == b.brain
                        &&& a.chromosome@ == b.chromosome@
                        &&& a.satiation == b.satiation
                        &&& a.wf()
                    },
            decreases olds@.len(),
        {
            let ghost i = news@.len() as int;
            let mut a = olds.remove(0);
            proof {
                assert(a == olda[i]);
                assert(olds@ =~= olda.subrange(i + 1, n as int));
                lemma_wf_accepts(net_m(a.brain), topology_m(), 0);
                lemma_net_out_len(net_m(a.brain), topology_m(), 0, zero_vision());
            }
            let vision = a.eye_matrix(&self.world.foods);
            let response = match a.brain.propagate(vision) {
                Ok(v) => v,
                Err(_) => {
                    proof {
                        assert(false);
                    }
                    unreached()
                },
            };
            let sp = if response[0] < 0 {
                0
            } else if response[0] > SCALE {
                SCALE
            } else {
                response[0]
            };
            let rt = if response[1] < 0 {
                0
            } else if response[1] > SCALE {
                SCALE
            } else {
                response[1]
            };
            let s2 = sat_add(a.speed, mul_unit(sp, SPEED_ACCEL));
            a.speed = if s2 < SPEED_MIN {
                SPEED_MIN
            } else if s2 > SPEED_MAX {
                SPEED_MAX
            } else {
                s2
            };
            proof {
                assert(-(50000 * (SCALE as int)) <= (rt - HALF_UNIT) * (TURN_FACTOR as int) <= 50000
                    * (SCALE as int)) by (nonlinear_arith)
                    requires
                        -500000 <= rt - HALF_UNIT <= 500000,
                        TURN_FACTOR == 100000,
                        SCALE == 1000000,
                ;
                lemma_fx_mul_bounded(rt - HALF_UNIT as int, TURN_FACTOR as int, 50000);
            }
            let dr = mul_unit(rt - HALF_UNIT, TURN_FACTOR);
            a.rotation.angle = wrap_into(a.rotation.angle, dr, TAU_FX);
            proof {
                let b = olda[i];
                let out = net_out_from(net_m(b.brain), 0, zero_vision());
                assert(response@ == out);
                assert(sp == clamp_unit(out[0] as int));
                assert(rt == clamp_unit(out[1] as int));
                assert(a.speed == clamp_speed(
                    fx_add(b.speed as int, fx_mul(sp as int, SPEED_ACCEL as int)),
                ) as i64);
                assert(a.rotation == (Rotation {
                    angle: ((b.rotation.angle + fx_mul(rt - HALF_UNIT, TURN_FACTOR as int)) % (
                    TAU_FX as int)) as i64,
                }));
                assert(a == (Animal {
                    position: a.position,
                    rotation: a.rotation,
                    speed: a.speed,
                    brain: a.brain,
                    chromosome: a.chromosome,
                    satiation: a.satiation,
                }));
                assert(a == brain_update(b));
            }
            news.push(a);
        }
        self.world.animals = news;
    }

    /// Movement processing: each animal advances along its heading at its
    /// speed and wraps back into the unit square on both axes.
    fn process_movements(&mut self)
        requires
            wf_cast(old(self).world),
        ensures
            wf_cast(final(self).world),
            final(self).age == old(self).age,
            final(self).params == old(self).params,
            final(self).world.foods@ == old(self).world.foods@,
            final(self).world.animals@.len() == old(self).world.animals@.len(),
            forall|i: int|
                0 <= i < final(self).world.animals@.len() ==> {
                    let a = #[trigger] final(self).world.animals@[i];
                    let b = old(self).world.animals@[i];
                    &&& a == move_update(b)
                    &&& a.rotation == b.rotation
                    &&& a.speed == b.speed
                    &&& a.brain == b.brain
                    &&& a.chromosome@ == b.chromosome@
                    &&& a.satiation == b.satiation
                    &&& a.wf()
                },
    {
        let ghost olda = self.world.animals@;
        let mut olds: Vec<Animal> = Vec::new();
        core::mem::swap(&mut olds, &mut self.world.animals);
        let mut news: Vec<Animal> = Vec::new();
        let ghost n = olda.len();
        while olds.len() > 0
            invariant
                self.age == old(self).age,
                self.params == old(self).params,
                n == olda.len(),
                news@.len() + olds@.len() == n,
                olds@ == olda.subrange(news@.len() as int, n as int),
                self.world.foods@ == old(self).world.foods@,
                forall|i: int| 0 <= i < n ==> (#[trigger] olda[i]).wf(),
                forall|k: int|
                    0 <= k < news@.len() ==> {
                        let a = #[trigger] news@[k];
                        let b = olda[k];
                        &&& a == move_update(b)
                        &&& a.rotation == b.rotation
                        &&& a.speed == b.speed
                        &&& a.brain == b.brain
                        &&& a.chromosome@ == b.chromosome@
                        &&& a.satiation == b.satiation
                        &&& a.wf()
                    },
            decreases olds@.len(),
        {
            let ghost i = news@.len() as int;
            let mut a = olds.remove(0);
            proof {
                assert(a == olda[i]);
                assert(olds@ =~= olda.subrange(i + 1, n as int));
            }
            let c = cosine(a.rotation.angle);
            let s = sine(a.rotation.angle);
            proof {
                assert(-(1000 * (SCALE as int)) <= (c as int) * (a.speed as int) <= 1000 * (
                SCALE as int)) by (nonlinear_arith)
                    requires
                        -1000000 <= c <= 1000000,
                        0 <= a.speed <= 1000,
                        SCALE == 1000000,
                ;
                assert(-(1000 * (SCALE as int)) <= (s as int) * (a.speed as int) <= 1000 * (
                SCALE as int)) by (nonlinear_arith)
                    requires
                        -1000000 <= s <= 1000000,
                        0 <= a.speed <= 1000,
                        SCALE == 1000000,
                ;
                lemma_fx_mul_bounded(c as int, a.speed as int, 1000);
                lemma_fx_mul_bounded(s as int, a.speed as int, 1000);
            }
            let dx = mul_unit(c, a.speed);
            let dy = mul_unit(s, a.speed);
            a.position.x = wrap_into(a.position.x, dx, SCALE);
            a.position.y = wrap_into(a.position.y, dy, SCALE);
            proof {
                let b = olda[i];
                assert(dx == fx_mul(cos_fx(b.rotation.angle as int), b.speed as int));
                assert(dy == fx_mul(sin_fx(b.rotation.angle as int), b.speed as int));
                assert(a.position == (Position {
                    x: ((b.position.x + dx) % (SCALE as int)) as i64,
                    y: ((b.position.y + dy) % (SCALE as int)) as i64,
                }));
                assert(a == (Animal {
                    position: a.position,
                    rotation: a.rotation,
                    speed: a.speed,
                    brain: a.brain,
                    chromosome: a.chromosome,
                    satiation: a.satiation,
                }));
                assert(a == move_update(b));
            }
            news.push(a);
        }
        self.world.animals = news;
    }

    /// The generation boundary: statistics over the current population's
    /// satiation, then a bred replacement population scattered at random
    /// places, fresh food, and a zero age.
    fn evolve(&mut self, rng: &mut Prng) -> (r: Statistics)
        requires
            old(rng).wf(),
            wf_cast(old(self).world),
            old(self).params.chance == MUTATION_CHANCE,
            old(self).params.coefficient == MUTATION_COEFF,
        ensures
            final(rng).wf(),
            final(self).wf(),
            final(self).age == 0,
            r == spec_statistics(world_fits(old(self).world)),
            r.min_fitness * SCALE <= r.avg_fitness <= r.max_fitness * SCALE,
            ({
                let pm = Seq::new(
                    old(self).world.animals@.len(),
                    |i: int|
                        (
                            old(self).world.animals@[i].satiation,
                            old(self).world.animals@[i].chromosome@,
                        ),
                );
                let ev = evolve_upto(
                    old(rng).state as int,
                    pm,
                    MUTATION_CHANCE as int,
                    MUTATION_COEFF as int,
                    ANIMAL_COUNT as int,
                );
                let s2 = lcg_iter2(ev.0, (3 * ANIMAL_COUNT) as nat);
                &&& forall|i: int|
                    0 <= i < ANIMAL_COUNT ==> {
                        let a = #[trigger] final(self).world.animals@[i];
                        &&& a.chromosome@ == ev.1[i]
                        &&& a.position.x == unit_draw(lcg_iter2(ev.0, (3 * i) as nat)) as i64
                        &&& a.position.y == unit_draw(lcg_iter2(ev.0, (3 * i + 1) as nat)) as i64
                        &&& a.rotation.angle == angle_draw(
                            lcg_iter2(ev.0, (3 * i + 2) as nat),
                        ) as i64
                        &&& a.speed == SPEED_MIN
                        &&& a.satiation == 0
                    }
                &&& forall|j: int|
                    0 <= j < FOOD_COUNT ==> {
                        let f = #[trigger] final(self).world.foods@[j];
                        &&& f.position.x == unit_draw(lcg_iter2(s2, (2 * j) as nat)) as i64
                        &&& f.position.y == unit_draw(lcg_iter2(s2, (2 * j + 1) as nat)) as i64
                    }
                &&& final(rng).state == lcg_iter2(s2, (2 * FOOD_COUNT) as nat)
            }),
    {
        self.age = 0;
        let ghost olda = self.world.animals@;
        let mut pop: Vec<Individual> = Vec::new();
        let mut i: usize = 0;
        proof {
            lemma_topology_genes_len();
        }
        while i < self.world.animals.len()
            invariant
                self.age == 0,
                self.params == old(self).params,
                i <= olda.len(),
                self.world.animals@ == olda,
                olda.len() == ANIMAL_COUNT,
                wf_cast(self.world),
                pop@.len() == i,
                forall|q: int|
                    0 <= q < i ==> (#[trigger] pop@[q]).fitness == olda[q].satiation,
                forall|q: int| 0 <= q < i ==> (#[trigger] pop@[q]).genes@ == olda[q].chromosome@,
                forall|q: int| 0 <= q < i ==> (#[trigger] pop@[q]).genes@.len() == 194,
            decreases olda.len() - i,
        {
            let genes = clone_genes(&self.world.animals[i].chromosome);
            proof {
                lemma_net_genes_len(net_m(self.world.animals@[i as int].brain), topology_m());
                lemma_topology_genes_len();
            }
            pop.push(Individual { fitness: self.world.animals[i].satiation, genes });
            i = i + 1;
        }
        let ghost pm = Seq::new(
            olda.len(),
            |q: int| (olda[q].satiation, olda[q].chromosome@),
        );
        let ghost s0 = rng.state as int;
        let ghost ev = evolve_upto(
            s0,
            pm,
            MUTATION_CHANCE as int,
            MUTATION_COEFF as int,
            ANIMAL_COUNT as int,
        );
        proof {
            assert forall|q: int| 0 <= q < pop_m(pop@).len() implies (#[trigger] pop_m(pop@)[q]).1.len()
                == pop_m(pop@)[0].1.len() by {
                assert(pop_m(pop@)[q].1 == pop@[q].genes@);
            }
            assert(pop_m(pop@) =~= pm);
        }
        let stats = match genetics::evolve(rng, &pop, &self.params) {
            Ok((children, stats)) => {
                let mut children = children;
                let ghost ch0 = children@;
                let mut news: Vec<Animal> = Vec::new();
                proof {
                    lemma_topology_genes_len();
                    assert(rng.state == ev.0);
                    assert(lcg_iter2(ev.0, 0nat) == ev.0);
                }
                while children.len() > 0
                    invariant
                        rng.wf(),
                        self.age == 0,
                        self.params == old(self).params,
                        olda.len() == ANIMAL_COUNT,
                        self.world.foods@.len() == FOOD_COUNT,
                        forall|q: int|
                            0 <= q < self.world.foods@.len() ==> (
                            #[trigger] self.world.foods@[q]).position.wf(),
                        news@.len() + children@.len() == olda.len(),
                        ch0.len() == ANIMAL_COUNT,
                        children@ == ch0.subrange(news@.len() as int, ANIMAL_COUNT as int),
                        forall|q: int|
                            0 <= q < ch0.len() ==> (#[trigger] ch0[q]).genes@ == ev.1[q],
                        rng.state == lcg_iter2(ev.0, (3 * news@.len()) as nat),
                        forall|q: int|
                            0 <= q < children@.len() ==> (#[trigger] children@[q]).genes@.len()
                                == 194,
                        forall|k: int|
                            0 <= k < news@.len() ==> {
                                let a = #[trigger] news@[k];
                                &&& a.wf()
                                &&& a.satiation == 0
                                &&& a.chromosome@ == ev.1[k]
                                &&& a.position.x == unit_draw(lcg_iter2(ev.0, (3 * k) as nat)) as i64
                                &&& a.position.y == unit_draw(
                                    lcg_iter2(ev.0, (3 * k + 1) as nat),
                                ) as i64
                                &&& a.rotation.angle == angle_draw(
                                    lcg_iter2(ev.0, (3 * k + 2) as nat),
                                ) as i64
                                &&& a.speed == SPEED_MIN
                            },
                    decreases children@.len(),
                {
                    let ghost k = news@.len() as int;
                    let ghost sk = rng.state as int;
                    let ind = children.remove(0);
                    proof {
                        lemma_topology_genes_len();
                        assert(ind == ch0[k]);
                        assert(children@ =~= ch0.subrange(k + 1, ANIMAL_COUNT as int));
                    }
                    let mut a = Animal::create(ind.genes);
                    a.position = random_position(rng);
                    proof {
                        lemma_lcg_iter2_add(ev.0, (3 * k) as nat, 1nat);
                        lemma_lcg_iter2_add(ev.0, (3 * k) as nat, 2nat);
                        assert(lcg_iter2(sk, 1nat) == lcg_step2(lcg_iter2(sk, 0nat)));
                        assert(lcg_iter2(sk, 2nat) == lcg_step2(lcg_iter2(sk, 1nat)));
                    }
                    a.rotation = random_rotation(rng);
                    proof {
                        lemma_lcg_iter2_add(ev.0, (3 * k + 2) as nat, 1nat);
                        assert(lcg_iter2(lcg_iter2(ev.0, (3 * k + 2) as nat), 1nat) == lcg_step2(
                            lcg_iter2(lcg_iter2(ev.0, (3 * k + 2) as nat), 0nat),
                        ));
                    }
                    news.push(a);
                }
                self.world.animals = news;
                let ghost s2 = lcg_iter2(ev.0, (3 * ANIMAL_COUNT) as nat);
                proof {
                    assert(rng.state == s2);
                    assert(lcg_iter2(s2, 0nat) == s2);
                }
                let mut j: usize = 0;
                while j < self.world.foods.len()
                    invariant
                        rng.wf(),
                        self.age == 0,
                        self.params == old(self).params,
                        j <= self.world.foods@.len(),
                        self.world.foods@.len() == FOOD_COUNT,
                        self.world.animals@ == news@,
                        self.world.animals@.len() == ANIMAL_COUNT,
                        rng.state == lcg_iter2(s2, (2 * j) as nat),
                        forall|k: int|
                            0 <= k < self.world.animals@.len() ==> (
                            #[trigger] self.world.animals@[k]).wf()
                                && self.world.animals@[k].satiation == 0,
                        forall|q: int|
                            0 <= q < j ==> {
                                let f = #[trigger] self.world.foods@[q];
                                &&& f.position.x == unit_draw(lcg_iter2(s2, (2 * q) as nat)) as i64
                                &&& f.position.y == unit_draw(
                                    lcg_iter2(s2, (2 * q + 1) as nat),
                                ) as i64
                            },
                        forall|q: int|
                            0 <= q < self.world.foods@.len() ==> (
                            #[trigger] self.world.foods@[q]).position.wf(),
                    decreases self.world.foods@.len() - j,
                {
                    let ghost sj = rng.state as int;
                    let f = Food::random(rng);
                    self.world.foods.set(j, f);
                    proof {
                        lemma_lcg_iter2_add(s2, (2 * j) as nat, 1nat);
                        lemma_lcg_iter2_add(s2, (2 * j) as nat, 2nat);
                        assert(lcg_iter2(sj, 1nat) == lcg_step2(lcg_iter2(sj, 0nat)));
                        assert(lcg_iter2(sj, 2nat) == lcg_step2(lcg_iter2(sj, 1nat)));
                    }
                    j = j + 1;
                }
                stats
            },
            Err(_) => {
                proof {
                    assert(false);
                }
                unreached()
            },
        };
        proof {
            reveal(fitnesses);
            assert(fitnesses(pop_m(pop@)) =~= world_fits(old(self).world));
        }
        stats
    }

    /// One tick.  Statistics come back exactly on a generation boundary;
    /// the invariant — positions inside the unit square among it — holds
    /// again afterwards, whatever the tick did.
    pub fn step(&mut self, rng: &mut Prng) -> (r: Option<Statistics>)
        requires
            old(self).wf(),
            old(rng).wf(),
        ensures
            final(self).wf(),
            final(rng).wf(),
            old(self).age < AGE_LIMIT ==> r is None && final(self).age == old(self).age + 1,
            old(self).age == AGE_LIMIT ==> final(self).age == 0 && match r {
                Some(st) => st.min_fitness * SCALE <= st.avg_fitness <= st.max_fitness * SCALE,
                None => false,
            },
            ({
                let c = collide_all(
                    old(self).world.animals@,
                    old(self).world.foods@,
                    0,
                    old(rng).state as int,
                );
                let pm = Seq::new(c.0.len(), |i: int| (c.0[i].satiation, c.0[i].chromosome@));
                let ev = evolve_upto(
                    c.2,
                    pm,
                    MUTATION_CHANCE as int,
                    MUTATION_COEFF as int,
                    ANIMAL_COUNT as int,
                );
                let s2 = lcg_iter2(ev.0, (3 * ANIMAL_COUNT) as nat);
                &&& (old(self).age < AGE_LIMIT ==> {
                    &&& final(self).world.foods@ == c.1
                    &&& final(rng).state == c.2
                    &&& final(self).world.animals@.len() == c.0.len()
                    &&& forall|i: int|
                        0 <= i < c.0.len() ==> final(self).world.animals@[i] == move_update(
                            brain_update(#[trigger] c.0[i]),
                        )
                })
                &&& (old(self).age == AGE_LIMIT ==> {
                    &&& r == Some(spec_statistics(fitnesses(pm)))
                    &&& forall|i: int|
                        0 <= i < ANIMAL_COUNT ==> {
                            let a = #[trigger] final(self).world.animals@[i];
                            &&& a.chromosome@ == ev.1[i]
                            &&& a.position.x == unit_draw(lcg_iter2(ev.0, (3 * i) as nat)) as i64
                            &&& a.position.y == unit_draw(
                                lcg_iter2(ev.0, (3 * i + 1) as nat),
                            ) as i64
                            &&& a.rotation.angle == angle_draw(
                                lcg_iter2(ev.0, (3 * i + 2) as nat),
                            ) as i64
                            &&& a.speed == SPEED_MIN
                            &&& a.satiation == 0
                        }
                    &&& forall|j: int|
                        0 <= j < FOOD_COUNT ==> {
                            let f = #[trigger] final(self).world.foods@[j];
                            &&& f.position.x == unit_draw(lcg_iter2(s2, (2 * j) as nat)) as i64
                            &&& f.position.y == unit_draw(lcg_iter2(s2, (2 * j + 1) as nat)) as i64
                        }
                    &&& final(rng).state == lcg_iter2(s2, (2 * FOOD_COUNT) as nat)
                })
            }),
    {
        let ghost age0 = self.age;
        let ghost c = collide_all(
            self.world.animals@,
            self.world.foods@,
            0,
            rng.state as int,
        );
        proof {
            assert forall|i: int| 0 <= i < self.world.animals@.len() implies (
            #[trigger] self.world.animals@[i]).satiation <= 150000 by {
                assert(self.world.animals@[i].satiation <= self.age * 60);
            }
        }
        self.process_collisions(rng);
        proof {
            assert(self.world.animals@ == c.0);
            assert(self.world.foods@ == c.1);
            assert(rng.state == c.2);
        }
        self.process_brains();
        let ghost w2 = self.world.animals@;
        self.process_movements();
        let ghost w3 = self.world.animals@;
        proof {
            assert forall|i: int| 0 <= i < c.0.len() implies #[trigger] w3[i] == move_update(
                brain_update(c.0[i]),
            ) by {
                assert(w2[i] == brain_update(c.0[i]));
                assert(w3[i] == move_update(w2[i]));
            }
        }
        self.age = self.age + 1;
        let ghost pre_world = self.world;
        if self.age > AGE_LIMIT {
            let st = self.evolve(rng);
            proof {
                let pm = Seq::new(c.0.len(), |i: int| (c.0[i].satiation, c.0[i].chromosome@));
                let pm_e = Seq::new(
                    pre_world.animals@.len(),
                    |i: int| (pre_world.animals@[i].satiation, pre_world.animals@[i].chromosome@),
                );
                assert forall|i: int| 0 <= i < c.0.len() implies (#[trigger] w3[i]).satiation
                    == c.0[i].satiation && w3[i].chromosome@ == c.0[i].chromosome@ by {
                    assert(w3[i] == move_update(brain_update(c.0[i])));
                }
                assert(pm_e =~= pm);
                reveal(fitnesses);
                assert(world_fits(pre_world) =~= fitnesses(pm));
            }
            Some(st)
        } else {
            proof {
                assert forall|i: int| 0 <= i < self.world.animals@.len() implies (
                #[trigger] self.world.animals@[i]).satiation <= self.age * 60 by {
                    let b0 = old(self).world.animals@[i];
                    assert(b0.satiation <= age0 * 60);
                }
            }
            None
        }
    }

    /// Runs ticks until the next generation boundary and returns its
    /// statistics.
    pub fn train(&mut self, rng: &mut Prng) -> (r: Statistics)
        requires
            old(self).wf(),
            old(rng).wf(),
        ensures
            final(self).wf(),
            final(rng).wf(),
            final(self).age == 0,
            r.min_fitness * SCALE <= r.avg_fitness <= r.max_fitness * SCALE,
            ({
                let b = run_to_boundary(
                    old(self).world.animals@,
                    old(self).world.foods@,
                    old(self).age,
                    old(rng).state as int,
                );
                let pm = Seq::new(b.0.len(), |i: int| (b.0[i].satiation, b.0[i].chromosome@));
                r == spec_statistics(fitnesses(pm))
            }),
    {
        loop
            invariant
                self.wf(),
                rng.wf(),
                run_to_boundary(
                    old(self).world.animals@,
                    old(self).world.foods@,
                    old(self).age,
                    old(rng).state as int,
                ) == run_to_boundary(
                    self.world.animals@,
                    self.world.foods@,
                    self.age,
                    rng.state as int,
                ),
            decreases AGE_LIMIT - self.age,
        {
            let ghost before = self.age;
            let ghost cur_a = self.world.animals@;
            let ghost cur_f = self.world.foods@;
            let ghost cur_s = rng.state as int;
            let ghost c = collide_all(cur_a, cur_f, 0, cur_s);
            let ghost t = tick_cast(cur_a, cur_f, cur_s);
            match self.step(rng) {
                Some(st) => {
                    proof {
                        assert(before == AGE_LIMIT);
                        let b = run_to_boundary(cur_a, cur_f, before, cur_s);
                        assert(b == t);
                        let pm_c = Seq::new(
                            c.0.len(),
                            |i: int| (c.0[i].satiation, c.0[i].chromosome@),
                        );
                        let pm_b = Seq::new(
                            b.0.len(),
                            |i: int| (b.0[i].satiation, b.0[i].chromosome@),
                        );
                        assert forall|i: int| 0 <= i < b.0.len() implies (#[trigger] b.0[i]).satiation
                            == c.0[i].satiation && b.0[i].chromosome@ == c.0[i].chromosome@ by {
                            assert(b.0[i] == move_update(brain_update(c.0[i])));
                        }
                        assert(pm_b =~= pm_c);
                    }
                    return st;
                },
                None => {
                    proof {
                        assert(self.age == before + 1);
                        assert(before < AGE_LIMIT);
                        assert(self.world.foods@ == c.1);
                        assert(rng.state == c.2);
                        assert(self.world.animals@ =~= t.0);
                        assert(run_to_boundary(cur_a, cur_f, before, cur_s) == run_to_boundary(
                            t.0,
                            t.1,
                            (before + 1) as u64,
                            t.2,
                        ));
                    }
                },
            }
        }
    }
}

/// A fresh vector with the same genes.
fn clone_genes(v: &Vec<i64>) -> (r: Vec<i64>)
    ensures
        r@ == v@,
{
    let mut out: Vec<i64> = Vec::new();
    let mut i: usize = 0;
    while i < v.len()
        invariant
            i <= v@.len(),
            out@.len() == i,
            forall|k: int| 0 <= k < i ==> out@[k] == v@[k],
        decreases v@.len() - i,
    {
        out.push(v[i]);
        i = i + 1;
    }
    proof {
        assert(out@ =~= v@);
    }
    out
}

} // verus!
