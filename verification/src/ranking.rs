//! Ranking a population by fitness, best first.

use vstd::prelude::*;
use std::cmp::Ordering;
use crate::darwin::{Genotype, GenotypeView, population_view};

verus! {

/// Orders genotypes by fitness, higher fitness first.
pub fn by_fitness_descending(a: &Genotype, b: &Genotype) -> (o: Ordering)
    ensures
        (o == Ordering::Less) == (a.fitness > b.fitness),
        (o == Ordering::Greater) == (a.fitness < b.fitness),
        (o == Ordering::Equal) == (a.fitness == b.fitness),
{
    if a.fitness > b.fitness {
        Ordering::Less
    } else if a.fitness < b.fitness {
        Ordering::Greater
    } else {
        Ordering::Equal
    }
}

/// Fitness never increases along the population.
pub open spec fn sorted_by_fitness(population: Seq<GenotypeView>) -> bool {
    forall|i: int, j: int|
        0 <= i <= j < population.len() ==> population[i].fitness >= population[j].fitness
}

/// `after` is `before` reordered by `perm` (position `i` of `after` holds
/// position `perm[i]` of `before`), sorted by fitness, best first, with
/// genotypes of equal fitness kept in their former order.
pub open spec fn ranks_as(before: Seq<GenotypeView>, after: Seq<GenotypeView>, perm: Seq<int>) -> bool {
    &&& after.len() == before.len()
    &&& perm.len() == before.len()
    &&& forall|i: int| 0 <= i < perm.len() ==> 0 <= #[trigger] perm[i] < before.len()
    &&& forall|i: int, j: int| 0 <= i < j < perm.len() ==> perm[i] != perm[j]
    &&& forall|i: int| 0 <= i < after.len() ==> #[trigger] after[i] == before[perm[i]]
    &&& sorted_by_fitness(after)
    &&& forall|i: int, j: int|
        0 <= i < j < after.len() && after[i].fitness == after[j].fitness ==> perm[i] < perm[j]
}

/// `after` is a stable ranking of `before` by fitness, best first.
pub open spec fn is_ranking(before: Seq<GenotypeView>, after: Seq<GenotypeView>) -> bool {
    exists|perm: Seq<int>| ranks_as(before, after, perm)
}

/// Calls the standard library's `sort_by` with `by_fitness_descending`.
/// Its documentation promises a stable sort: the result is a reordering of
/// the input, sorted by the comparison, with equal elements in their former
/// order.
#[verifier::external_body]
pub(crate) fn sort_by_fitness(population: &mut Vec<Genotype>)
    ensures
        is_ranking(population_view(old(population)@), population_view(final(population)@)),
{
    population.sort_by(|a, b| by_fitness_descending(a, b));
}

} // verus!
