//! The integer side of training the maze agents' networks: uniform crossover
//! of two gene vectors, and breeding the next population from a ranking.

use vstd::prelude::*;
use rand::rngs::ThreadRng;
use crate::random::{random_in, random_ratio, thread_rng};

verus! {

/// Number of genes of an agent's network: seven inputs (five sensors and the
/// two distances to the target) feeding six hidden units, which feed two
/// outputs, each unit with its bias: `7 * 6 + 6 + 6 * 2 + 2`.
pub const DNA_LENGTH: usize = 62;

/// The child whose gene `i` comes from `b` where `mask[i]` holds and from
/// `a` elsewhere.
pub open spec fn mixed<T>(a: Seq<T>, b: Seq<T>, mask: Seq<bool>) -> Seq<T> {
    Seq::new(DNA_LENGTH as nat, |i: int| if mask[i] { b[i] } else { a[i] })
}

/// Uniform crossover under a given mask: gene `i` from `b` where `mask[i]`
/// holds, from `a` elsewhere.
pub fn mix_genes<T: Copy>(a: &[T], b: &[T], mask: &[bool]) -> (child: Vec<T>)
    requires
        a@.len() >= DNA_LENGTH,
        b@.len() >= DNA_LENGTH,
        mask@.len() >= DNA_LENGTH,
    ensures
        child@ == mixed(a@, b@, mask@),
{
    let mut child: Vec<T> = Vec::with_capacity(DNA_LENGTH);
    for i in 0..DNA_LENGTH
        invariant
            a@.len() >= DNA_LENGTH,
            b@.len() >= DNA_LENGTH,
            mask@.len() >= DNA_LENGTH,
            child@.len() == i,
            forall|j: int| 0 <= j < i ==> #[trigger] child@[j] == mixed(a@, b@, mask@)[j],
    {
        let gene = if mask[i] { b[i] } else { a[i] };
        child.push(gene);
    }
    assert(child@ =~= mixed(a@, b@, mask@));
    child
}

/// Draws a crossover mask: each gene from the second parent with
/// probability one half, independently.
fn draw_mask(rng: &mut ThreadRng) -> (mask: Vec<bool>)
    ensures
        mask@.len() == DNA_LENGTH,
{
    let mut mask: Vec<bool> = Vec::with_capacity(DNA_LENGTH);
    for i in 0..DNA_LENGTH
        invariant
            mask@.len() == i,
    {
        mask.push(random_ratio(rng, 1, 2));
    }
    mask
}

/// Uniform crossover: each gene comes from `a` or from `b` by a fair draw,
/// independently of the others.
pub fn crossover_genes<T: Copy>(a: &[T], b: &[T]) -> (child: Vec<T>)
    requires
        a@.len() >= DNA_LENGTH,
        b@.len() >= DNA_LENGTH,
    ensures
        exists|mask: Seq<bool>| mask.len() == DNA_LENGTH && child@ == #[trigger] mixed(a@, b@, mask),
{
    let mut rng = thread_rng();
    let mask = draw_mask(&mut rng);
    mix_genes(a, b, mask.as_slice())
}

/// The gene vectors of a population, as sequences.
pub open spec fn genomes<T>(population: Seq<Vec<T>>) -> Seq<Seq<T>> {
    population.map_values(|g: Vec<T>| g@)
}

/// What breeding from a ranking needs: at least two gene vectors of at
/// least `DNA_LENGTH` genes, a ranking of at least two entries that name
/// members of the population, and a parent pool within the ranking.
pub open spec fn can_breed_networks<T>(population: Seq<Seq<T>>, order: Seq<usize>, pool: int) -> bool {
    &&& population.len() >= 2
    &&& order.len() >= 2
    &&& 1 <= pool <= order.len()
    &&& forall|i: int| 0 <= i < order.len() ==> #[trigger] order[i] < population.len()
    &&& forall|i: int| 0 <= i < population.len() ==> (#[trigger] population[i]).len() >= DNA_LENGTH
}

/// The number of entrants in a parent tournament.
pub const TOURNAMENT_SIZE: usize = 3;

/// The winner of a parent tournament: the best-ranked entrant, that is the
/// smallest rank among `entrants`.
pub open spec fn best_rank(entrants: Seq<usize>) -> usize
    decreases entrants.len(),
{
    if entrants.len() <= 1 {
        entrants[0]
    } else {
        let rest = best_rank(entrants.drop_last());
        if entrants.last() < rest {
            entrants.last()
        } else {
            rest
        }
    }
}

/// The winner of a tournament is one of its entrants and ranks at least as
/// well as each of them.
pub proof fn lemma_best_rank(entrants: Seq<usize>)
    requires
        entrants.len() >= 1,
    ensures
        entrants.contains(best_rank(entrants)),
        forall|i: int| 0 <= i < entrants.len() ==> best_rank(entrants) <= #[trigger] entrants[i],
    decreases entrants.len(),
{
    if entrants.len() == 1 {
        assert(entrants[0] == best_rank(entrants));
    } else {
        let init = entrants.drop_last();
        lemma_best_rank(init);
        let r = best_rank(init);
        let j = choose|j: int| 0 <= j < init.len() && init[j] == r;
        assert(entrants[j] == r);
        assert(entrants[entrants.len() - 1] == entrants.last());
        assert forall|i: int| 0 <= i < entrants.len() implies best_rank(entrants) <= #[trigger] entrants[i] by {
            if i < init.len() {
                assert(init[i] == entrants[i]);
            }
        }
    }
}

/// A parent tournament: the best-ranked of the drawn entrants.
pub fn tournament_rank(entrants: &[usize; TOURNAMENT_SIZE]) -> (rank: usize)
    ensures
        rank == best_rank(entrants@),
{
    let mut best = entrants[0];
    assert(entrants@.take(1) =~= seq![entrants@[0]]);
    for i in 1..TOURNAMENT_SIZE
        invariant
            best == best_rank(entrants@.take(i as int)),
    {
        assert(entrants@.take(i + 1).drop_last() =~= entrants@.take(i as int));
        assert(entrants@.take(i + 1).last() == entrants@[i as int]);
        if entrants[i] < best {
            best = entrants[i];
        }
    }
    assert(entrants@.take(TOURNAMENT_SIZE as int) =~= entrants@);
    best
}

/// Tournament entrants that name ranks below `bound`.
pub open spec fn entrants_below(entrants: Seq<([usize; TOURNAMENT_SIZE], [usize; TOURNAMENT_SIZE])>, bound: int) -> bool {
    forall|k: int, j: int|
        0 <= k < entrants.len() && 0 <= j < TOURNAMENT_SIZE ==> (#[trigger] entrants[k].0@[j]) < bound
            && entrants[k].1@[j] < bound
}

/// The next population bred from `population` ranked by `order` under the
/// given draws: the two best carried over, then one child per pair of
/// parent tournaments in `entrants`, each parent the best-ranked of its
/// entrants, crossed over under the matching mask.
pub open spec fn bred<T>(
    population: Seq<Seq<T>>,
    order: Seq<usize>,
    entrants: Seq<([usize; TOURNAMENT_SIZE], [usize; TOURNAMENT_SIZE])>,
    masks: Seq<Seq<bool>>,
) -> Seq<Seq<T>> {
    Seq::new(
        entrants.len() + 2,
        |i: int|
            if i == 0 {
                population[order[0] as int]
            } else if i == 1 {
                population[order[1] as int]
            } else {
                mixed(
                    population[order[best_rank(entrants[i - 2].0@) as int] as int],
                    population[order[best_rank(entrants[i - 2].1@) as int] as int],
                    masks[i - 2],
                )
            },
    )
}

/// Breeds the next population under given draws: the two best by `order`
/// carried over, then for each pair of parent tournaments the uniform
/// crossover of the two winners under the matching mask.
pub fn breed_networks_with<T: Copy>(
    population: &Vec<Vec<T>>,
    order: &Vec<usize>,
    entrants: &Vec<([usize; TOURNAMENT_SIZE], [usize; TOURNAMENT_SIZE])>,
    masks: &Vec<Vec<bool>>,
) -> (next: Vec<Vec<T>>)
    requires
        can_breed_networks(genomes(population@), order@, order@.len() as int),
        masks@.len() == entrants@.len(),
        entrants_below(entrants@, order@.len() as int),
        forall|k: int| 0 <= k < masks@.len() ==> (#[trigger] masks@[k])@.len() >= DNA_LENGTH,
    ensures
        genomes(next@) == bred(genomes(population@), order@, entrants@, genomes(masks@)),
{
    let ghost pop = genomes(population@);
    let ghost target = bred(pop, order@, entrants@, genomes(masks@));
    let mut next: Vec<Vec<T>> = Vec::new();
    assert(pop[order@[0] as int] == population@[order@[0] as int]@);
    assert(pop[order@[1] as int] == population@[order@[1] as int]@);
    next.push(vstd::slice::slice_to_vec(population[order[0]].as_slice()));
    next.push(vstd::slice::slice_to_vec(population[order[1]].as_slice()));
    for k in 0..entrants.len()
        invariant
            pop == genomes(population@),
            target == bred(pop, order@, entrants@, genomes(masks@)),
            can_breed_networks(pop, order@, order@.len() as int),
            masks@.len() == entrants@.len(),
            entrants_below(entrants@, order@.len() as int),
            forall|k: int| 0 <= k < masks@.len() ==> (#[trigger] masks@[k])@.len() >= DNA_LENGTH,
            next@.len() == k + 2,
            forall|j: int| 0 <= j < k + 2 ==> (#[trigger] next@[j])@ == target[j],
    {
        let p = tournament_rank(&entrants[k].0);
        let q = tournament_rank(&entrants[k].1);
        proof {
            lemma_best_rank(entrants@[k as int].0@);
            lemma_best_rank(entrants@[k as int].1@);
            let i = choose|i: int| 0 <= i < 3 && entrants@[k as int].0@[i] == p;
            let j = choose|j: int| 0 <= j < 3 && entrants@[k as int].1@[j] == q;
            assert(entrants@[k as int].0@[i] < order@.len());
            assert(entrants@[k as int].1@[j] < order@.len());
        }
        let a = order[p];
        let b = order[q];
        assert(pop[a as int] == population@[a as int]@);
        assert(pop[b as int] == population@[b as int]@);
        assert(genomes(masks@)[k as int] == masks@[k as int]@);
        let child = mix_genes(population[a].as_slice(), population[b].as_slice(), masks[k].as_slice());
        next.push(child);
    }
    assert(genomes(next@) =~= target);
    next
}

/// Draws the entrants of one parent tournament: `TOURNAMENT_SIZE` ranks
/// below `pool`, each uniformly.
fn draw_entrants(rng: &mut ThreadRng, pool: usize) -> (entrants: [usize; TOURNAMENT_SIZE])
    requires
        1 <= pool,
    ensures
        forall|j: int| 0 <= j < TOURNAMENT_SIZE ==> #[trigger] entrants@[j] < pool,
{
    // A pool can never exceed `i64::MAX` ranks in memory; the bound only
    // keeps the draw in the range the generator is asked for.
    let hi: i64 = if (pool as u64) <= (i64::MAX as u64) { pool as i64 } else { i64::MAX };
    let a = random_in(rng, 0, hi) as usize;
    let b = random_in(rng, 0, hi) as usize;
    let c = random_in(rng, 0, hi) as usize;
    [a, b, c]
}

/// Draws, for each child, the entrants of its two parent tournaments and a
/// crossover mask.
fn draw_breeding(rng: &mut ThreadRng, children: usize, pool: usize) -> (draws: (
    Vec<([usize; TOURNAMENT_SIZE], [usize; TOURNAMENT_SIZE])>,
    Vec<Vec<bool>>,
))
    requires
        1 <= pool,
    ensures
        draws.0@.len() == children,
        draws.1@.len() == children,
        entrants_below(draws.0@, pool as int),
        forall|k: int| 0 <= k < children ==> (#[trigger] draws.1@[k])@.len() == DNA_LENGTH,
{
    let mut entrants: Vec<([usize; TOURNAMENT_SIZE], [usize; TOURNAMENT_SIZE])> = Vec::new();
    let mut masks: Vec<Vec<bool>> = Vec::new();
    for k in 0..children
        invariant
            1 <= pool,
            entrants@.len() == k,
            masks@.len() == k,
            entrants_below(entrants@, pool as int),
            forall|j: int| 0 <= j < k ==> (#[trigger] masks@[j])@.len() == DNA_LENGTH,
    {
        let first = draw_entrants(rng, pool);
        let second = draw_entrants(rng, pool);
        let mask = draw_mask(rng);
        entrants.push((first, second));
        masks.push(mask);
    }
    (entrants, masks)
}

/// Breeds the next population from `population` ranked best first by
/// `order`: the two best carried over unchanged, then children until the
/// population is full, each the uniform crossover of two parents, each
/// parent the best-ranked of `TOURNAMENT_SIZE` entrants drawn from the
/// `pool` best.
pub fn breed_networks<T: Copy>(population: &Vec<Vec<T>>, order: &Vec<usize>, pool: usize) -> (next: Vec<Vec<T>>)
    requires
        can_breed_networks(genomes(population@), order@, pool as int),
    ensures
        next@.len() == population@.len(),
        next@[0]@ == population@[order@[0] as int]@,
        next@[1]@ == population@[order@[1] as int]@,
        exists|entrants: Seq<([usize; TOURNAMENT_SIZE], [usize; TOURNAMENT_SIZE])>, masks: Seq<Seq<bool>>|
            {
                &&& entrants.len() + 2 == population@.len()
                &&& masks.len() == entrants.len()
                &&& entrants_below(entrants, pool as int)
                &&& forall|k: int| 0 <= k < masks.len() ==> (#[trigger] masks[k]).len() == DNA_LENGTH
                &&& genomes(next@) == bred(genomes(population@), order@, entrants, masks)
            },
{
    let mut rng = thread_rng();
    let children = population.len() - 2;
    let draws = draw_breeding(&mut rng, children, pool);
    proof {
        assert forall|k: int, j: int|
            0 <= k < draws.0@.len() && 0 <= j < TOURNAMENT_SIZE implies (#[trigger] draws.0@[k].0@[j])
                < order@.len() && draws.0@[k].1@[j] < order@.len() by {
            assert(draws.0@[k].0@[j] < pool && draws.0@[k].1@[j] < pool);
        }
    }
    let next = breed_networks_with(population, order, &draws.0, &draws.1);
    proof {
        let masks = genomes(draws.1@);
        assert forall|k: int| 0 <= k < masks.len() implies (#[trigger] masks[k]).len() == DNA_LENGTH by {
            assert(masks[k] == draws.1@[k]@);
        }
        assert(genomes(next@).len() == next@.len());
        assert(genomes(next@)[0] == next@[0]@);
        assert(genomes(next@)[1] == next@[1]@);
        assert(genomes(population@)[order@[0] as int] == population@[order@[0] as int]@);
        assert(genomes(population@)[order@[1] as int] == population@[order@[1] as int]@);
    }
    next
}

} // verus!
