//! The world's inhabitants: positions on a toroidal unit square, rotations,
//! foods, and animals with a network brain and its chromosome.
//!
//! Positions live in `[0, 1) x [0, 1)` (fixed-point) and wrap on both axes;
//! rotations live in `[0, tau)`.  An animal's invariant ties its chromosome
//! to its brain: the flat genes are exactly the brain's genes, so the
//! round-trip law applies to every animal that the simulation holds.

use vstd::prelude::*;
use crate::fixed::SCALE;
use crate::network::LayerTopology;
use crate::network::Network;
use crate::network::genes_len;
use crate::network::net_genes;
use crate::network::net_m;
use crate::network::wf_net_m;
use crate::rng::Prng;
use crate::rng::lcg_draw;
use crate::rng::lcg_iter2;
use crate::rng::lcg_step2;
use crate::rng::lemma_lcg_iter2_add;
use crate::rng::random_genes;
use crate::trig::TAU_FX;
use vstd::arithmetic::div_mod::lemma_mod_add_multiples_vanish;
use vstd::arithmetic::div_mod::lemma_small_mod;

verus! {

/// The slowest an animal moves, in millionths of a unit per tick.
pub const SPEED_MIN: i64 = 200;

/// The fastest an animal moves.
pub const SPEED_MAX: i64 = 1000;

/// An animal eats any food within this distance.
pub const EAT_RADIUS: i64 = 10000;

/// A point on the toroidal unit square, in millionths.
#[derive(Clone, Copy, Debug, PartialEq, Eq, Structural)]
pub struct Position {
    pub x: i64,
    pub y: i64,
}

/// A heading in millionths of a radian.
#[derive(Clone, Copy, Debug, PartialEq, Eq, Structural)]
pub struct Rotation {
    pub angle: i64,
}

/// A morsel: nothing but a place.
#[derive(Clone, Copy, Debug, PartialEq, Eq, Structural)]
pub struct Food {
    pub position: Position,
}

/// An agent: a place, a heading, a speed, a network brain, the brain's
/// flat chromosome, and how much it has eaten.
#[derive(Clone, Debug, PartialEq)]
pub struct Animal {
    pub position: Position,
    pub rotation: Rotation,
    pub speed: i64,
    pub brain: Network,
    pub chromosome: Vec<i64>,
    pub satiation: u32,
}

/// The world: a fixed cast of animals and foods.
#[derive(Clone, Debug, PartialEq)]
pub struct World {
    pub animals: Vec<Animal>,
    pub foods: Vec<Food>,
}

impl Position {
    pub open spec fn wf(self) -> bool {
        0 <= self.x < SCALE && 0 <= self.y < SCALE
    }
}

impl Rotation {
    pub open spec fn wf(self) -> bool {
        0 <= self.angle < TAU_FX
    }
}

/// The shared shape of every brain: nine senses, sixteen hidden neurons,
/// two control outputs.
pub open spec fn topology_m() -> Seq<LayerTopology> {
    seq![
        LayerTopology { neurons: 9 },
        LayerTopology { neurons: 16 },
        LayerTopology { neurons: 2 },
    ]
}

/// The topology asks for 194 genes: 10 * 16 for the hidden layer and
/// 17 * 2 for the output layer.
pub proof fn lemma_topology_genes_len()
    ensures
        genes_len(topology_m()) == 194,
{
    let t = topology_m();
    assert(t.len() == 3);
    assert(t[0].neurons == 9 && t[1].neurons == 16 && t[2].neurons == 2);
    assert(crate::network::genes_len_upto(t, 0) == 0);
    assert((t[0].neurons + 1) * (t[1].neurons as int) == 160) by (nonlinear_arith)
        requires
            t[0].neurons == 9,
            t[1].neurons == 16,
    ;
    assert((t[1].neurons + 1) * (t[2].neurons as int) == 34) by (nonlinear_arith)
        requires
            t[1].neurons == 16,
            t[2].neurons == 2,
    ;
    assert(crate::network::genes_len_upto(t, 1) == 160);
    assert(crate::network::genes_len_upto(t, 2) == 194);
}

impl Animal {
    /// Positions and rotation in range, speed clamped, and the chromosome
    /// exactly the brain's genes for the shared topology.
    pub open spec fn wf(self) -> bool {
        &&& self.position.wf()
        &&& self.rotation.wf()
        &&& SPEED_MIN <= self.speed <= SPEED_MAX
        &&& wf_net_m(net_m(self.brain), topology_m())
        &&& self.chromosome@ == net_genes(net_m(self.brain))
    }
}

/// The squared distance between two positions, in squared millionths.
pub open spec fn dist_sq(a: Position, b: Position) -> int {
    (a.x - b.x) * (a.x - b.x) + (a.y - b.y) * (a.y - b.y)
}

/// The floor of the square root, by bisection.
pub fn isqrt(v: u64) -> (r: u64)
    ensures
        (r as int) * (r as int) <= v < (r as int + 1) * (r as int + 1),
{
    let mut lo: u64 = 0;
    let mut hi: u64 = 0x100000000;
    proof {
        assert((hi as int) * (hi as int) > v as int) by (nonlinear_arith)
            requires
                hi == 0x100000000,
                v <= 0xffffffffffffffff,
        ;
    }
    while hi - lo > 1
        invariant
            lo < hi <= 0x100000000,
            (lo as int) * (lo as int) <= v as int,
            (v as int) < (hi as int) * (hi as int),
        decreases hi - lo,
    {
        let mid = lo + (hi - lo) / 2;
        proof {
            assert((mid as int) * (mid as int) < 0x10000000000000000) by (nonlinear_arith)
                requires
                    mid < 0x100000000,
            ;
        }
        if mid * mid <= v {
            lo = mid;
        } else {
            hi = mid;
        }
    }
    lo
}

impl Position {
    /// The Euclidean distance, rounded down to whole millionths: the
    /// unique `r` with `r^2 <= dist_sq < (r+1)^2`.
    pub fn distance(&self, other: &Position) -> (r: i64)
        requires
            self.wf(),
            other.wf(),
        ensures
            0 <= r,
            (r as int) * (r as int) <= dist_sq(*self, *other),
            dist_sq(*self, *other) < (r as int + 1) * (r as int + 1),
    {
        let dx = self.x - other.x;
        let dy = self.y - other.y;
        proof {
            assert(0 <= dx * dx <= 1000000000000 && 0 <= dy * dy <= 1000000000000)
                by (nonlinear_arith)
                requires
                    -1000000 < dx < 1000000,
                    -1000000 < dy < 1000000,
            ;
        }
        let d2 = (dx * dx + dy * dy) as u64;
        let r = isqrt(d2);
        proof {
            assert(d2 <= 2000000000000);
            assert((r as int) < 0x200000) by (nonlinear_arith)
                requires
                    (r as int) * (r as int) <= 2000000000000,
                    r >= 0,
            ;
        }
        r as i64
    }
}

/// Adds a bounded step to a coordinate and wraps it back into `[0, m)`:
/// Euclidean remainder, computed with one correction.
pub fn wrap_into(x: i64, d: i64, m: i64) -> (r: i64)
    requires
        0 < m <= 0x100000000,
        0 <= x < m,
        -m <= d <= m,
    ensures
        r == (x + d) % (m as int),
        0 <= r < m,
{
    let s = x + d;
    if s < 0 {
        proof {
            lemma_mod_add_multiples_vanish(s as int, m as int);
            lemma_small_mod((s + m) as nat, m as nat);
        }
        s + m
    } else if s >= m {
        proof {
            lemma_mod_add_multiples_vanish((s - m) as int, m as int);
            lemma_small_mod((s - m) as nat, m as nat);
        }
        s - m
    } else {
        proof {
            lemma_small_mod(s as nat, m as nat);
        }
        s
    }
}

/// The fixed-point value in `[0, 1)` that one draw from state `s` yields.
pub open spec fn unit_draw(s: int) -> int {
    lcg_draw(s) % (SCALE as int)
}

/// The angle in `[0, tau)` that one draw from state `s` yields.
pub open spec fn angle_draw(s: int) -> int {
    lcg_draw(s) % (TAU_FX as int)
}

/// A position drawn uniformly over the torus: x first, then y.
pub fn random_position(rng: &mut Prng) -> (p: Position)
    requires
        old(rng).wf(),
    ensures
        final(rng).wf(),
        final(rng).state == lcg_iter2(old(rng).state as int, 2nat),
        p.x == unit_draw(old(rng).state as int),
        p.y == unit_draw(lcg_step2(old(rng).state as int)),
        p.wf(),
{
    let ghost s0 = old(rng).state as int;
    let x = rng.next_unit();
    let y = rng.next_unit();
    proof {
        assert(lcg_iter2(s0, 1nat) == lcg_step2(lcg_iter2(s0, 0nat)));
        assert(lcg_iter2(s0, 2nat) == lcg_step2(lcg_iter2(s0, 1nat)));
    }
    Position { x, y }
}

/// A heading drawn uniformly over the circle.
pub fn random_rotation(rng: &mut Prng) -> (r: Rotation)
    requires
        old(rng).wf(),
    ensures
        final(rng).wf(),
        final(rng).state == lcg_step2(old(rng).state as int),
        r.angle == angle_draw(old(rng).state as int),
        r.wf(),
{
    let angle = rng.next_below(TAU_FX as u64);
    Rotation { angle: angle as i64 }
}

impl Food {
    /// A morsel at a fresh uniform position.
    pub fn random(rng: &mut Prng) -> (f: Food)
        requires
            old(rng).wf(),
        ensures
            final(rng).wf(),
            final(rng).state == lcg_iter2(old(rng).state as int, 2nat),
            f.position.x == unit_draw(old(rng).state as int),
            f.position.y == unit_draw(lcg_step2(old(rng).state as int)),
            f.position.wf(),
    {
        Food { position: random_position(rng) }
    }
}

/// An animal's random construction is pinned to the stream: 194 gene
/// draws, two position draws, one rotation draw.
pub open spec fn animal_pinned(a: Animal, s: int) -> bool {
    &&& a.chromosome@ == random_genes(s, 194nat)
    &&& a.position.x == unit_draw(lcg_iter2(s, 194nat))
    &&& a.position.y == unit_draw(lcg_iter2(s, 195nat))
    &&& a.rotation.angle == angle_draw(lcg_iter2(s, 196nat))
    &&& a.speed == SPEED_MIN
    &&& a.satiation == 0
}

impl Animal {
    /// The shared topology, as a vector.
    pub fn topology() -> (r: Vec<LayerTopology>)
        ensures
            r@ == topology_m(),
    {
        let mut t: Vec<LayerTopology> = Vec::new();
        t.push(LayerTopology { neurons: 9 });
        t.push(LayerTopology { neurons: 16 });
        t.push(LayerTopology { neurons: 2 });
        proof {
            assert(t@ =~= topology_m());
        }
        t
    }

    /// A fresh animal: random brain, the brain's chromosome, a random
    /// place and heading, minimum speed, nothing eaten yet.
    pub fn random(rng: &mut Prng) -> (r: Animal)
        requires
            old(rng).wf(),
        ensures
            final(rng).wf(),
            final(rng).state == lcg_iter2(old(rng).state as int, 197nat),
            r.wf(),
            animal_pinned(r, old(rng).state as int),
    {
        let ghost s0 = old(rng).state as int;
        let topo = Animal::topology();
        let brain = Network::random(rng, &topo);
        proof {
            lemma_topology_genes_len();
        }
        let chromosome = brain.weights();
        let position = random_position(rng);
        proof {
            lemma_lcg_iter2_add(s0, 194nat, 1nat);
            lemma_lcg_iter2_add(s0, 194nat, 2nat);
            assert(lcg_iter2(lcg_iter2(s0, 194nat), 1nat) == lcg_step2(lcg_iter2(s0, 194nat)));
            assert(lcg_iter2(lcg_iter2(s0, 194nat), 2nat) == lcg_step2(
                lcg_iter2(lcg_iter2(s0, 194nat), 1nat),
            ));
        }
        let rotation = random_rotation(rng);
        proof {
            lemma_lcg_iter2_add(s0, 196nat, 1nat);
        }
        Animal { position, rotation, speed: SPEED_MIN, brain, chromosome, satiation: 0 }
    }

    /// Rebuilds an animal from a bred chromosome: the brain comes from the
    /// genes, the place is a default to be assigned by the orchestrator.
    pub fn create(chromosome: Vec<i64>) -> (r: Animal)
        requires
            chromosome@.len() == genes_len(topology_m()),
        ensures
            r.wf(),
            r.chromosome@ == chromosome@,
            r.position.x == SCALE / 2 && r.position.y == SCALE / 2,
            r.rotation.angle == 0,
            r.speed == SPEED_MIN,
            r.satiation == 0,
    {
        let topo = Animal::topology();
        let brain = match Network::from_weights(&topo, &chromosome) {
            Ok(b) => b,
            Err(_) => {
                proof {
                    assert(false);
                }
                unreached()
            },
        };
        Animal {
            position: Position { x: SCALE / 2, y: SCALE / 2 },
            rotation: Rotation { angle: 0 },
            speed: SPEED_MIN,
            brain,
            chromosome,
            satiation: 0,
        }
    }

    /// Fitness is what was eaten.
    pub fn fitness(&self) -> (r: u32)
        ensures
            r == self.satiation,
    {
        self.satiation
    }

    /// The animal's chromosome.
    pub fn chromosome(&self) -> (r: &Vec<i64>)
        ensures
            r@ == self.chromosome@,
    {
        &self.chromosome
    }

    /// What the animal senses: the placeholder vision — a zero vector of
    /// the brain's input width, every entry in `[0, 1]`.
    pub fn eye_matrix(&self, foods: &Vec<Food>) -> (r: Vec<i64>)
        ensures
            r@ == zero_vision(),
    {
        let mut v: Vec<i64> = Vec::new();
        let mut i: usize = 0;
        while i < 9
            invariant
                i <= 9,
                v@.len() == i,
                forall|k: int| 0 <= k < i ==> v@[k] == 0i64,
            decreases 9 - i,
        {
            v.push(0);
            i = i + 1;
        }
        proof {
            assert(v@ =~= zero_vision());
        }
        v
    }
}

/// The placeholder sensory input: nine zeros.
pub open spec fn zero_vision() -> Seq<i64> {
    Seq::new(9nat, |i: int| 0i64)
}

/// A food's random construction is pinned to the stream: two draws.
pub open spec fn food_pinned(f: Food, s: int) -> bool {
    &&& f.position.x == unit_draw(s)
    &&& f.position.y == unit_draw(lcg_step2(s))
}

impl World {
    /// A fresh world: `animals` random animals drawn first, then `foods`
    /// random morsels, in order.
    pub fn random(rng: &mut Prng, animals: usize, foods: usize) -> (r: World)
        requires
            old(rng).wf(),
            animals <= 1000,
            foods <= 1000,
        ensures
            final(rng).wf(),
            final(rng).state == lcg_iter2(
                old(rng).state as int,
                (animals * 197 + foods * 2) as nat,
            ),
            r.animals@.len() == animals,
            r.foods@.len() == foods,
            forall|i: int| 0 <= i < animals ==> (#[trigger] r.animals@[i]).wf(),
            forall|i: int|
                0 <= i < animals ==> animal_pinned(
                    #[trigger] r.animals@[i],
                    lcg_iter2(old(rng).state as int, (i * 197) as nat),
                ),
            forall|j: int|
                0 <= j < foods ==> (#[trigger] r.foods@[j]).position.wf(),
            forall|j: int|
                0 <= j < foods ==> food_pinned(
                    #[trigger] r.foods@[j],
                    lcg_iter2(old(rng).state as int, (animals * 197 + j * 2) as nat),
                ),
    {
        let ghost s0 = old(rng).state as int;
        let mut av: Vec<Animal> = Vec::new();
        let mut i: usize = 0;
        while i < animals
            invariant
                rng.wf(),
                i <= animals <= 1000,
                av@.len() == i,
                rng.state == lcg_iter2(s0, (i * 197) as nat),
                forall|k: int| 0 <= k < i ==> (#[trigger] av@[k]).wf(),
                forall|k: int|
                    0 <= k < i ==> animal_pinned(
                        #[trigger] av@[k],
                        lcg_iter2(s0, (k * 197) as nat),
                    ),
            decreases animals - i,
        {
            let a = Animal::random(rng);
            av.push(a);
            proof {
                lemma_lcg_iter2_add(s0, (i * 197) as nat, 197nat);
                assert((i + 1) * 197 == i * 197 + 197) by (nonlinear_arith);
            }
            i = i + 1;
        }
        let ghost sa = rng.state as int;
        let mut fv: Vec<Food> = Vec::new();
        let mut j: usize = 0;
        while j < foods
            invariant
                rng.wf(),
                j <= foods <= 1000,
                fv@.len() == j,
                sa == lcg_iter2(s0, (animals * 197) as nat),
                rng.state == lcg_iter2(sa, (j * 2) as nat),
                forall|k: int| 0 <= k < j ==> (#[trigger] fv@[k]).position.wf(),
                forall|k: int|
                    0 <= k < j ==> food_pinned(#[trigger] fv@[k], lcg_iter2(sa, (k * 2) as nat)),
            decreases foods - j,
        {
            let f = Food::random(rng);
            fv.push(f);
            proof {
                lemma_lcg_iter2_add(sa, (j * 2) as nat, 2nat);
                assert((j + 1) * 2 == j * 2 + 2) by (nonlinear_arith);
            }
            j = j + 1;
        }
        proof {
            lemma_lcg_iter2_add(s0, (animals * 197) as nat, (foods * 2) as nat);
            assert forall|k: int| 0 <= k < foods implies food_pinned(
                #[trigger] fv@[k],
                lcg_iter2(s0, (animals * 197 + k * 2) as nat),
            ) by {
                lemma_lcg_iter2_add(s0, (animals * 197) as nat, (k * 2) as nat);
            }
        }
        World { animals: av, foods: fv }
    }
}

} // verus!
