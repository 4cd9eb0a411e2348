//! The genetic algorithm: fitness-proportionate selection, uniform
//! crossover, per-gene mutation, and per-generation statistics.
//!
//! Every operation draws from the injected random source and is pinned to a
//! spec function of the source's starting state, so that a whole evolution
//! step is a deterministic function of population and state.  When every
//! fitness is zero, selection falls back to a uniform draw — a documented
//! choice, since proportions are undefined there.

use vstd::prelude::*;
use crate::fixed::SCALE;
use crate::fixed::fx_add;
use crate::fixed::sat_add;
use crate::rng::Prng;
use crate::rng::lcg_draw;
use crate::rng::lcg_iter2;
use crate::rng::lcg_step2;
use crate::rng::lemma_lcg_iter2_add;
use vstd::arithmetic::div_mod::lemma_div_by_multiple;
use vstd::arithmetic::div_mod::lemma_div_is_ordered;

verus! {

/// One member of a population: a fitness score and a chromosome.
#[derive(Clone, Debug, PartialEq)]
pub struct Individual {
    pub fitness: u32,
    pub genes: Vec<i64>,
}

/// A snapshot of a population's fitness at the moment evolution ran.
/// `avg_fitness` is fixed-point (millionths); the bounds are exact.
#[derive(Clone, Copy, Debug, PartialEq, Eq, Structural)]
pub struct Statistics {
    pub min_fitness: u32,
    pub max_fitness: u32,
    pub avg_fitness: u64,
}

/// The mutation strategy's configuration: each gene is perturbed with
/// probability `chance` (fixed-point) by a uniform draw in
/// `[-coefficient, coefficient]`.
#[derive(Clone, Copy, Debug, PartialEq, Eq, Structural)]
pub struct MutationParams {
    pub chance: i64,
    pub coefficient: i64,
}

/// Evolution of an empty population has no meaning.
#[derive(Clone, Copy, Debug, PartialEq, Eq, Structural)]
pub enum EvolveError {
    EmptyPopulation,
}

/// The smallest value of a non-empty sequence.
pub open spec fn seq_min(s: Seq<u32>) -> int
    recommends
        s.len() >= 1,
    decreases s.len(),
{
    if s.len() <= 1 {
        s[0] as int
    } else {
        let m = seq_min(s.drop_last());
        if s.last() <= m {
            s.last() as int
        } else {
            m
        }
    }
}

/// The largest value of a non-empty sequence.
pub open spec fn seq_max(s: Seq<u32>) -> int
    recommends
        s.len() >= 1,
    decreases s.len(),
{
    if s.len() <= 1 {
        s[0] as int
    } else {
        let m = seq_max(s.drop_last());
        if s.last() >= m {
            s.last() as int
        } else {
            m
        }
    }
}

/// The sum of a sequence of fitness values.
pub open spec fn seq_sum(s: Seq<u32>) -> int
    decreases s.len(),
{
    if s.len() == 0 {
        0
    } else {
        seq_sum(s.drop_last()) + s.last()
    }
}

/// A population's sum lies between `len * min` and `len * max`.
pub proof fn lemma_seq_sum_bounds(s: Seq<u32>)
    requires
        s.len() >= 1,
    ensures
        seq_min(s) * s.len() <= seq_sum(s) <= seq_max(s) * s.len(),
        0 <= seq_min(s) <= seq_max(s) <= 0xffffffff,
    decreases s.len(),
{
    if s.len() == 1 {
        assert(s.drop_last().len() == 0);
        assert(seq_sum(s.drop_last()) == 0);
        assert(seq_sum(s) == seq_sum(s.drop_last()) + s.last());
        assert(seq_min(s) * s.len() == seq_min(s)) by (nonlinear_arith)
            requires
                s.len() == 1,
        ;
        assert(seq_max(s) * s.len() == seq_max(s)) by (nonlinear_arith)
            requires
                s.len() == 1,
        ;
    } else {
        let dl = s.drop_last();
        let n = s.len() as int;
        lemma_seq_sum_bounds(dl);
        assert(seq_min(s) <= seq_min(dl) && seq_min(s) <= s.last());
        assert(seq_max(s) >= seq_max(dl) && seq_max(s) >= s.last());
        assert(seq_min(s) * (n - 1) <= seq_min(dl) * (n - 1)) by (nonlinear_arith)
            requires
                seq_min(s) <= seq_min(dl),
                n >= 1,
        ;
        assert(seq_max(s) * (n - 1) >= seq_max(dl) * (n - 1)) by (nonlinear_arith)
            requires
                seq_max(s) >= seq_max(dl),
                n >= 1,
        ;
        assert(seq_min(s) * (n - 1) + seq_min(s) == seq_min(s) * n) by (nonlinear_arith);
        assert(seq_max(s) * (n - 1) + seq_max(s) == seq_max(s) * n) by (nonlinear_arith);
    }
}

/// The model of a population: each member's fitness and genes.
pub type PopM = Seq<(u32, Seq<i64>)>;

/// The model of a population of individuals.
pub open spec fn pop_m(pop: Seq<Individual>) -> PopM {
    Seq::new(pop.len(), |i: int| (pop[i].fitness, pop[i].genes@))
}

/// The fitness column of a population model.
#[verifier::opaque]
pub open spec fn fitnesses(pop: PopM) -> Seq<u32> {
    Seq::new(pop.len(), |i: int| pop[i].0)
}

/// Every chromosome in the population has the same length.
pub open spec fn uniform_genes(pop: PopM) -> bool {
    forall|i: int| 0 <= i < pop.len() ==> (#[trigger] pop[i]).1.len() == pop[0].1.len()
}

/// The roulette wheel: walking the population from index `i` with `x`
/// still to spend, the first individual whose fitness exceeds the rest of
/// `x` is picked.
pub open spec fn roulette_from(fits: Seq<u32>, i: int, x: int) -> int
    decreases fits.len() - i,
{
    if i < 0 || i >= fits.len() {
        fits.len() - 1
    } else if x < fits[i] {
        i
    } else {
        roulette_from(fits, i + 1, x - fits[i])
    }
}

/// Which index one selection draw picks from state `s`: proportional to
/// fitness, uniform when the whole population scores zero.
#[verifier::opaque]
pub open spec fn select_spec(fits: Seq<u32>, s: int) -> int {
    if seq_sum(fits) > 0 {
        roulette_from(fits, 0, lcg_draw(s) % seq_sum(fits))
    } else {
        lcg_draw(s) % (fits.len() as int)
    }
}

/// The sum of the values from index `i` on.
pub open spec fn suffix_sum(fits: Seq<u32>, i: int) -> int {
    seq_sum(fits.subrange(i, fits.len() as int))
}

/// Summing a suffix equals its first element plus the rest; proved by
/// peeling the last element off both sides.
proof fn lemma_suffix_sum_drop(fits: Seq<u32>, i: int)
    requires
        0 <= i < fits.len(),
    ensures
        suffix_sum(fits, i) == fits[i] + suffix_sum(fits, i + 1),
    decreases fits.len() - i,
{
    let tail = fits.subrange(i, fits.len() as int);
    assert(tail.len() >= 1);
    if tail.len() == 1 {
        assert(suffix_sum(fits, i + 1) == 0);
        assert(seq_sum(tail) == seq_sum(tail.drop_last()) + tail.last());
        assert(tail.last() == fits[i]);
    } else {
        let shorter = fits.subrange(0, fits.len() - 1);
        assert(tail.drop_last() =~= shorter.subrange(i, shorter.len() as int));
        lemma_suffix_sum_drop(shorter, i);
        assert(shorter.subrange(i + 1, shorter.len() as int) =~= fits.subrange(
            i + 1,
            fits.len() as int,
        ).drop_last());
        assert(seq_sum(fits.subrange(i + 1, fits.len() as int)) == seq_sum(
            fits.subrange(i + 1, fits.len() as int).drop_last(),
        ) + fits.last());
        assert(seq_sum(tail) == seq_sum(tail.drop_last()) + fits.last());
    }
}

impl Statistics {
    /// Minimum, maximum and fixed-point mean of a non-empty fitness list;
    /// the mean always lies between the extremes.
    pub fn new(fits: &Vec<u32>) -> (r: Statistics)
        requires
            1 <= fits@.len() <= 0x7fffffff,
        ensures
            r.min_fitness == seq_min(fits@),
            r.max_fitness == seq_max(fits@),
            r.avg_fitness == (seq_sum(fits@) * SCALE) / (fits@.len() as int),
            r.min_fitness * SCALE <= r.avg_fitness <= r.max_fitness * SCALE,
    {
        let mut mn: u32 = fits[0];
        let mut mx: u32 = fits[0];
        let mut sum: u64 = fits[0] as u64;
        let mut i: usize = 1;
        proof {
            assert(fits@.subrange(0, 1).len() == 1);
            assert(fits@.subrange(0, 1)[0] == fits@[0]);
            assert(seq_sum(fits@.subrange(0, 1)) == seq_sum(
                fits@.subrange(0, 1).drop_last(),
            ) + fits@[0]);
        }
        while i < fits.len()
            invariant
                1 <= i <= fits@.len() <= 0x7fffffff,
                mn == seq_min(fits@.subrange(0, i as int)),
                mx == seq_max(fits@.subrange(0, i as int)),
                sum == seq_sum(fits@.subrange(0, i as int)),
                sum <= i * 0xffffffff,
            decreases fits@.len() - i,
        {
            let v = fits[i];
            proof {
                let pre = fits@.subrange(0, i as int);
                let post = fits@.subrange(0, i as int + 1);
                assert(post.drop_last() =~= pre);
                assert(post.last() == fits@[i as int]);
            }
            if v < mn {
                mn = v;
            }
            if v > mx {
                mx = v;
            }
            sum = sum + v as u64;
            i = i + 1;
        }
        proof {
            assert(fits@.subrange(0, fits@.len() as int) =~= fits@);
        }
        let n: u64 = fits.len() as u64;
        proof {
            assert((sum as int) * (SCALE as int) <= 0x7fffffffffffffff * 1000000)
                by (nonlinear_arith)
                requires
                    0 <= sum <= 0x7fffffffffffffff,
            ;
        }
        let avg128: u128 = (sum as u128) * (SCALE as u128) / (n as u128);
        proof {
            let s = seq_sum(fits@);
            let len = fits@.len() as int;
            lemma_seq_sum_bounds(fits@);
            assert(seq_min(fits@) * len * SCALE <= s * SCALE <= seq_max(fits@) * len * SCALE)
                by (nonlinear_arith)
                requires
                    seq_min(fits@) * len <= s <= seq_max(fits@) * len,
                    SCALE >= 0,
            ;
            assert(seq_min(fits@) * len * SCALE == (seq_min(fits@) * SCALE) * len)
                by (nonlinear_arith);
            assert(seq_max(fits@) * len * SCALE == (seq_max(fits@) * SCALE) * len)
                by (nonlinear_arith);
            lemma_div_by_multiple(seq_min(fits@) * SCALE, len);
            lemma_div_by_multiple(seq_max(fits@) * SCALE, len);
            lemma_div_is_ordered((seq_min(fits@) * SCALE) * len, s * SCALE, len);
            lemma_div_is_ordered(s * SCALE, (seq_max(fits@) * SCALE) * len, len);
            assert(seq_max(fits@) * SCALE <= 0xffffffff * 1000000) by (nonlinear_arith)
                requires
                    seq_max(fits@) <= 0xffffffff,
            ;
        }
        Statistics { min_fitness: mn, max_fitness: mx, avg_fitness: avg128 as u64 }
    }
}

/// One selection draw: an index below the population's length; whenever
/// the population has any fitness at all, the picked individual's fitness
/// is positive.
pub fn select(rng: &mut Prng, fits: &Vec<u32>) -> (r: usize)
    requires
        old(rng).wf(),
        1 <= fits@.len() <= 0x7fffffff,
    ensures
        final(rng).wf(),
        final(rng).state == lcg_step2(old(rng).state as int),
        r < fits@.len(),
        r == select_spec(fits@, old(rng).state as int),
        seq_sum(fits@) > 0 ==> fits@[r as int] > 0,
{
    let mut total: u64 = 0;
    let mut i: usize = 0;
    while i < fits.len()
        invariant
            i <= fits@.len() <= 0x7fffffff,
            total == seq_sum(fits@.subrange(0, i as int)),
            total <= i * 0xffffffff,
        decreases fits@.len() - i,
    {
        proof {
            let pre = fits@.subrange(0, i as int);
            let post = fits@.subrange(0, i as int + 1);
            assert(post.drop_last() =~= pre);
            assert(post.last() == fits@[i as int]);
        }
        total = total + fits[i] as u64;
        i = i + 1;
    }
    proof {
        assert(fits@.subrange(0, fits@.len() as int) =~= fits@);
    }
    if total == 0 {
        let d = rng.next_below(fits.len() as u64);
        proof {
            reveal(select_spec);
        }
        return d as usize;
    }
    proof {
        reveal(select_spec);
    }
    let draw = rng.next_below(total);
    let ghost x0 = draw as int;
    let mut x = draw;
    let mut j: usize = 0;
    proof {
        assert(fits@.subrange(0, fits@.len() as int) =~= fits@);
        assert(suffix_sum(fits@, 0) == seq_sum(fits@));
    }
    while j < fits.len()
        invariant
            rng.wf(),
            rng.state == lcg_step2(old(rng).state as int),
            seq_sum(fits@) > 0,
            fits@.len() >= 1,
            x0 == lcg_draw(old(rng).state as int) % seq_sum(fits@),
            0 <= j <= fits@.len(),
            x <= draw,
            x == x0 || x < x0,
            x < suffix_sum(fits@, j as int),
            roulette_from(fits@, 0, x0) == roulette_from(fits@, j as int, x as int),
        decreases fits@.len() - j,
    {
        proof {
            lemma_suffix_sum_drop(fits@, j as int);
        }
        if x < fits[j] as u64 {
            proof {
                reveal(select_spec);
            }
            return j;
        }
        x = x - fits[j] as u64;
        j = j + 1;
    }
    proof {
        assert(suffix_sum(fits@, fits@.len() as int) == 0);
        assert(false);
    }
    0
}

/// Uniform crossover from state `s`: each gene comes from parent `a` on an
/// even draw and from parent `b` on an odd one.
#[verifier::opaque]
pub open spec fn crossover_genes(s: int, a: Seq<i64>, b: Seq<i64>) -> Seq<i64> {
    Seq::new(
        a.len(),
        |j: int|
            if lcg_draw(lcg_iter2(s, j as nat)) % 2 == 0 {
                a[j]
            } else {
                b[j]
            },
    )
}

/// Uniform crossover: every position of the child takes parent `a`'s or
/// parent `b`'s value, each decided by one fresh draw.
pub fn crossover(rng: &mut Prng, a: &Vec<i64>, b: &Vec<i64>) -> (r: Vec<i64>)
    requires
        old(rng).wf(),
        a@.len() == b@.len(),
    ensures
        final(rng).wf(),
        final(rng).state == lcg_iter2(old(rng).state as int, a@.len() as nat),
        r@ == crossover_genes(old(rng).state as int, a@, b@),
        r@.len() == a@.len(),
        forall|j: int| 0 <= j < r@.len() ==> r@[j] == a@[j] || r@[j] == b@[j],
    decreases a@.len(),
{
    let ghost s0 = old(rng).state as int;
    let mut out: Vec<i64> = Vec::new();
    let mut j: usize = 0;
    while j < a.len()
        invariant
            rng.wf(),
            a@.len() == b@.len(),
            j <= a@.len(),
            out@.len() == j,
            rng.state == lcg_iter2(s0, j as nat),
            forall|k: int| 0 <= k < j ==> out@[k] == crossover_genes(s0, a@, b@)[k],
        decreases a@.len() - j,
    {
        let coin = rng.next_below(2);
        proof {
            reveal(crossover_genes);
            lemma_lcg_iter2_add(s0, j as nat, 1nat);
        }
        if coin == 0 {
            out.push(a[j]);
        } else {
            out.push(b[j]);
        }
        j = j + 1;
    }
    proof {
        reveal(crossover_genes);
        assert(out@ =~= crossover_genes(s0, a@, b@));
    }
    out
}

/// Mutation from state `s`: genes from index `j` on are each perturbed
/// with probability `chance` by a uniform draw in `[-coeff, coeff]`
/// (saturating addition), others stay untouched.
#[verifier::opaque]
pub open spec fn mutate_from(
    s: int,
    chance: int,
    coeff: int,
    genes: Seq<i64>,
    j: int,
) -> (int, Seq<i64>)
    decreases genes.len() - j,
{
    if j < 0 || j >= genes.len() {
        (s, genes)
    } else {
        let p = lcg_draw(s) % (SCALE as int);
        let s1 = lcg_step2(s);
        if p < chance {
            let d = lcg_draw(s1) % (2 * coeff + 1) - coeff;
            let s2 = lcg_step2(s1);
            mutate_from(s2, chance, coeff, genes.update(j, fx_add(genes[j] as int, d) as i64), j + 1)
        } else {
            mutate_from(s1, chance, coeff, genes, j + 1)
        }
    }
}

/// Per-gene mutation, in place: each gene is perturbed with probability
/// `params.chance` by a uniform fixed-point draw in
/// `[-params.coefficient, params.coefficient]`.
#[verifier::rlimit(60)]
pub fn mutate(rng: &mut Prng, genes: &mut Vec<i64>, params: &MutationParams) -> (r: ())
    requires
        old(rng).wf(),
        0 <= params.coefficient < 0x4000000000000000,
    ensures
        final(rng).wf(),
        (final(rng).state as int, final(genes)@) == mutate_from(
            old(rng).state as int,
            params.chance as int,
            params.coefficient as int,
            old(genes)@,
            0,
        ),
        final(genes)@.len() == old(genes)@.len(),
{
    let ghost s0 = old(rng).state as int;
    let ghost g0 = old(genes)@;
    let ghost c = params.chance as int;
    let ghost k = params.coefficient as int;
    let mut j: usize = 0;
    proof {
        reveal(mutate_from);
    }
    while j < genes.len()
        invariant
            rng.wf(),
            0 <= params.coefficient < 0x4000000000000000,
            c == params.chance,
            k == params.coefficient,
            j <= genes@.len(),
            genes@.len() == g0.len(),
            mutate_from(s0, c, k, g0, 0) == mutate_from(rng.state as int, c, k, genes@, j as int),
        decreases genes@.len() - j,
    {
        let ghost sj = rng.state as int;
        let ghost gj = genes@;
        let p = rng.next_unit();
        if p < params.chance {
            let d = rng.next_below(2 * (params.coefficient as u64) + 1);
            let delta = d as i64 - params.coefficient;
            let g = genes[j];
            genes.set(j, sat_add(g, delta));
            proof {
                reveal(mutate_from);
                assert(delta == lcg_draw(lcg_step2(sj)) % (2 * k + 1) - k);
                assert(genes@ == gj.update(j as int, fx_add(gj[j as int] as int, delta as int) as i64));
                assert(mutate_from(sj, c, k, gj, j as int) == mutate_from(
                    rng.state as int,
                    c,
                    k,
                    genes@,
                    j as int + 1,
                ));
            }
        } else {
            proof {
                reveal(mutate_from);
                assert(mutate_from(sj, c, k, gj, j as int) == mutate_from(
                    rng.state as int,
                    c,
                    k,
                    genes@,
                    j as int + 1,
                ));
            }
        }
        j = j + 1;
    }
    proof {
        reveal(mutate_from);
    }
}

/// One child's genes from state `s`: two selection draws, a uniform
/// crossover of the two chosen parents, then mutation.
#[verifier::opaque]
pub open spec fn child_spec(s: int, pop: PopM, chance: int, coeff: int) -> (int, Seq<i64>) {
    let fits = fitnesses(pop);
    let ia = select_spec(fits, s);
    let s1 = lcg_step2(s);
    let ib = select_spec(fits, s1);
    let s2 = lcg_step2(s1);
    let cg = crossover_genes(s2, pop[ia].1, pop[ib].1);
    let s3 = lcg_iter2(s2, pop[ia].1.len() as nat);
    mutate_from(s3, chance, coeff, cg, 0)
}

/// Spells one child's breeding chain out, draw by draw.
pub proof fn lemma_child_spec_unfold(s: int, pop: PopM, chance: int, coeff: int)
    ensures
        ({
            let fits = fitnesses(pop);
            let ia = select_spec(fits, s);
            let s1 = lcg_step2(s);
            let ib = select_spec(fits, s1);
            let s2 = lcg_step2(s1);
            let cg = crossover_genes(s2, pop[ia].1, pop[ib].1);
            let s3 = lcg_iter2(s2, pop[ia].1.len() as nat);
            child_spec(s, pop, chance, coeff) == mutate_from(s3, chance, coeff, cg, 0)
        }),
{
    reveal(child_spec);
}

/// The state and the chromosomes of the first `n` children bred from a
/// population, starting at state `s`.
#[verifier::opaque]
pub open spec fn evolve_upto(s: int, pop: PopM, chance: int, coeff: int, n: int) -> (int, Seq<
    Seq<i64>,
>)
    decreases n,
{
    if n <= 0 {
        (s, Seq::empty())
    } else {
        let prev = evolve_upto(s, pop, chance, coeff, n - 1);
        let child = child_spec(prev.0, pop, chance, coeff);
        (child.0, prev.1 + seq![child.1])
    }
}

/// Before any child is bred, the state is untouched.
pub proof fn lemma_evolve_upto_zero(s: int, pop: PopM, chance: int, coeff: int)
    ensures
        evolve_upto(s, pop, chance, coeff, 0) == (s, Seq::<Seq<i64>>::empty()),
{
    reveal(evolve_upto);
}

/// Breeding one more child appends one more chromosome.
pub proof fn lemma_evolve_upto_step(s: int, pop: PopM, chance: int, coeff: int, n: int)
    requires
        n >= 0,
    ensures
        ({
            let prev = evolve_upto(s, pop, chance, coeff, n);
            let child = child_spec(prev.0, pop, chance, coeff);
            evolve_upto(s, pop, chance, coeff, n + 1) == (child.0, prev.1 + seq![child.1])
        }),
{
    reveal(evolve_upto);
}

/// The number of children bred is the number asked for.
pub proof fn lemma_evolve_upto_len(s: int, pop: PopM, chance: int, coeff: int, n: int)
    requires
        n >= 0,
    ensures
        evolve_upto(s, pop, chance, coeff, n).1.len() == n,
    decreases n,
{
    reveal(evolve_upto);
    if n > 0 {
        lemma_evolve_upto_len(s, pop, chance, coeff, n - 1);
    }
}

/// Breeds one child: two selection draws, a crossover of the two chosen
/// parents, then mutation.
fn breed_child(
    rng: &mut Prng,
    population: &Vec<Individual>,
    fits: &Vec<u32>,
    params: &MutationParams,
) -> (r: Vec<i64>)
    requires
        old(rng).wf(),
        1 <= population@.len() <= 0x7fffffff,
        uniform_genes(pop_m(population@)),
        fits@ == fitnesses(pop_m(population@)),
        fits@.len() == population@.len(),
        0 <= params.coefficient < 0x4000000000000000,
    ensures
        final(rng).wf(),
        r@.len() == population@[0].genes@.len(),
        (final(rng).state as int, r@) == child_spec(
            old(rng).state as int,
            pop_m(population@),
            params.chance as int,
            params.coefficient as int,
        ),
{
    let ghost pop = pop_m(population@);
    let ghost s0 = old(rng).state as int;
    let ia = select(rng, fits);
    proof {
        assert(ia == select_spec(fitnesses(pop), s0));
    }
    let ghost s1 = rng.state as int;
    let ib = select(rng, fits);
    proof {
        assert(ib == select_spec(fitnesses(pop), s1));
        assert(pop[ia as int].1.len() == pop[0].1.len());
        assert(pop[ib as int].1.len() == pop[0].1.len());
        assert(pop[ia as int].1 == population@[ia as int].genes@);
        assert(pop[ib as int].1 == population@[ib as int].genes@);
    }
    let ghost s2 = rng.state as int;
    let mut child = crossover(rng, &population[ia].genes, &population[ib].genes);
    proof {
        assert(child@ == crossover_genes(s2, pop[ia as int].1, pop[ib as int].1));
        assert(rng.state == lcg_iter2(s2, pop[ia as int].1.len() as nat));
    }
    mutate(rng, &mut child, params);
    proof {
        lemma_child_spec_unfold(s0, pop, params.chance as int, params.coefficient as int);
    }
    child
}

/// One evolution step.  The statistics describe the population that goes
/// in; the population that comes out has the same size, every member a
/// fresh individual with fitness zero whose chromosome is bred by
/// selection, crossover and mutation.  Fails exactly on an empty
/// population.
#[verifier::rlimit(100)]
pub fn evolve(rng: &mut Prng, population: &Vec<Individual>, params: &MutationParams) -> (r:
    Result<(Vec<Individual>, Statistics), EvolveError>)
    requires
        old(rng).wf(),
        population@.len() <= 0x7fffffff,
        uniform_genes(pop_m(population@)),
        0 <= params.coefficient < 0x4000000000000000,
    ensures
        final(rng).wf(),
        population@.len() == 0 <==> r == Err::<(Vec<Individual>, Statistics), EvolveError>(
            EvolveError::EmptyPopulation,
        ),
        match r {
            Ok(out) => {
                &&& out.0@.len() == population@.len()
                &&& out.1 == spec_statistics(fitnesses(pop_m(population@)))
                &&& out.1.min_fitness * SCALE <= out.1.avg_fitness <= out.1.max_fitness * SCALE
                &&& forall|i: int|
                    0 <= i < out.0@.len() ==> (#[trigger] out.0@[i]).genes@.len()
                        == population@[0].genes@.len()
                &&& forall|i: int| 0 <= i < out.0@.len() ==> (#[trigger] out.0@[i]).fitness == 0
                &&& final(rng).state == evolve_upto(
                    old(rng).state as int,
                    pop_m(population@),
                    params.chance as int,
                    params.coefficient as int,
                    population@.len() as int,
                ).0
                &&& forall|i: int|
                    0 <= i < out.0@.len() ==> (#[trigger] out.0@[i]).genes@ == evolve_upto(
                        old(rng).state as int,
                        pop_m(population@),
                        params.chance as int,
                        params.coefficient as int,
                        population@.len() as int,
                    ).1[i]
            },
            Err(e) => {
                &&& e == EvolveError::EmptyPopulation
                &&& final(rng).state == old(rng).state
            },
        },
{
    if population.len() == 0 {
        return Err(EvolveError::EmptyPopulation);
    }
    let ghost pop = pop_m(population@);
    let mut fits: Vec<u32> = Vec::new();
    let mut i: usize = 0;
    while i < population.len()
        invariant
            i <= pop.len(),
            pop == pop_m(population@),
            fits@.len() == i,
            forall|q: int| 0 <= q < i ==> fits@[q] == fitnesses(pop)[q],
        decreases pop.len() - i,
    {
        proof {
            reveal(fitnesses);
        }
        fits.push(population[i].fitness);
        i = i + 1;
    }
    proof {
        reveal(fitnesses);
        assert(fits@ =~= fitnesses(pop));
    }
    let stats = Statistics::new(&fits);
    let ghost s0 = old(rng).state as int;
    let ghost c = params.chance as int;
    let ghost k = params.coefficient as int;
    proof {
        lemma_evolve_upto_zero(s0, pop, c, k);
    }
    let mut children: Vec<Individual> = Vec::new();
    let mut n: usize = 0;
    while n < population.len()
        invariant
            rng.wf(),
            pop == pop_m(population@),
            1 <= pop.len() <= 0x7fffffff,
            uniform_genes(pop),
            fits@ == fitnesses(pop),
            fits@.len() == pop.len(),
            c == params.chance,
            k == params.coefficient,
            0 <= params.coefficient < 0x4000000000000000,
            n <= pop.len(),
            children@.len() == n,
            rng.state == evolve_upto(s0, pop, c, k, n as int).0,
            forall|q: int|
                0 <= q < n ==> (#[trigger] children@[q]).genes@ == evolve_upto(
                    s0,
                    pop,
                    c,
                    k,
                    n as int,
                ).1[q],
            forall|q: int|
                0 <= q < n ==> (#[trigger] children@[q]).genes@.len()
                    == population@[0].genes@.len(),
            forall|q: int| 0 <= q < n ==> (#[trigger] children@[q]).fitness == 0,
        decreases pop.len() - n,
    {
        let ghost s_here = rng.state as int;
        let child = breed_child(rng, population, &fits, params);
        let ghost ch_old = children@;
        children.push(Individual { fitness: 0, genes: child });
        proof {
            let cs = child_spec(s_here, pop, c, k);
            let prev = evolve_upto(s0, pop, c, k, n as int);
            let next = evolve_upto(s0, pop, c, k, n as int + 1);
            lemma_evolve_upto_step(s0, pop, c, k, n as int);
            lemma_evolve_upto_len(s0, pop, c, k, n as int);
            assert(next.0 == cs.0 && next.1 == prev.1 + seq![cs.1]);
            assert forall|q: int| 0 <= q < n + 1 implies (#[trigger] children@[q]).genes@
                == next.1[q] by {
                if q < n {
                    assert(children@[q] == ch_old[q]);
                    assert(next.1[q] == prev.1[q]);
                } else {
                    assert(children@[q].genes@ == cs.1);
                }
            }
        }
        n = n + 1;
    }
    Ok((children, stats))
}

/// The statistics of a non-empty fitness list, as a value.
pub open spec fn spec_statistics(fits: Seq<u32>) -> Statistics {
    Statistics {
        min_fitness: seq_min(fits) as u32,
        max_fitness: seq_max(fits) as u32,
        avg_fitness: ((seq_sum(fits) * SCALE) / (fits.len() as int)) as u64,
    }
}

} // verus!
