use genesis::training::{
    breed_networks, breed_networks_with, crossover_genes, mix_genes, tournament_rank, DNA_LENGTH,
};

#[test]
fn network_has_sixty_two_genes() {
    assert_eq!(DNA_LENGTH, 7 * 6 + 6 + 6 * 2 + 2);
}

#[test]
fn mix_takes_masked_genes_from_the_second_parent() {
    let a: Vec<u32> = (0..70).collect();
    let b: Vec<u32> = (100..170).collect();
    let mask: Vec<bool> = (0..DNA_LENGTH).map(|i| i % 3 == 1).collect();
    let child = mix_genes(&a, &b, &mask);
    assert_eq!(child.len(), DNA_LENGTH);
    for i in 0..DNA_LENGTH {
        let expected = if i % 3 == 1 { b[i] } else { a[i] };
        assert_eq!(child[i], expected);
    }
}

#[test]
fn crossover_is_uniform() {
    let a = vec![0u8; DNA_LENGTH];
    let b = vec![1u8; DNA_LENGTH];
    let mut split = false;
    for _ in 0..50 {
        let child = crossover_genes(&a, &b);
        assert_eq!(child.len(), DNA_LENGTH);
        // Genes from the second parent need not form one contiguous range.
        let first = child.iter().position(|g| *g == 1);
        let last = child.iter().rposition(|g| *g == 1);
        if let (Some(f), Some(l)) = (first, last) {
            if child[f..=l].iter().any(|g| *g == 0) {
                split = true;
            }
        }
    }
    assert!(split);
}

#[test]
fn tournament_picks_the_best_rank() {
    assert_eq!(tournament_rank(&[4, 1, 7]), 1);
    assert_eq!(tournament_rank(&[2, 2, 9]), 2);
    assert_eq!(tournament_rank(&[0, 5, 3]), 0);
    assert_eq!(tournament_rank(&[8, 6, 5]), 5);
}

#[test]
fn breeding_under_given_draws() {
    let population: Vec<Vec<u32>> =
        (0..4u32).map(|k| (0..DNA_LENGTH as u32).map(|i| 1000 * k + i).collect()).collect();
    let order = vec![2, 0, 3, 1];
    // First child: tournaments won by ranks 0 and 1; second: rank 2 twice.
    let entrants = vec![([3, 0, 2], [1, 3, 2]), ([2, 3, 2], [3, 2, 3])];
    let masks = vec![
        (0..DNA_LENGTH).map(|i| i % 2 == 0).collect::<Vec<bool>>(),
        vec![false; DNA_LENGTH],
    ];
    let next = breed_networks_with(&population, &order, &entrants, &masks);
    assert_eq!(next.len(), 4);
    assert_eq!(next[0], population[2]);
    assert_eq!(next[1], population[0]);
    for i in 0..DNA_LENGTH {
        let expected = if i % 2 == 0 { population[0][i] } else { population[2][i] };
        assert_eq!(next[2][i], expected);
    }
    assert_eq!(next[3], population[3][..DNA_LENGTH].to_vec());
}

#[test]
fn breeding_keeps_the_two_best_and_draws_from_the_pool() {
    let population: Vec<Vec<u32>> =
        (0..10u32).map(|k| vec![k; DNA_LENGTH]).collect();
    let order: Vec<usize> = (0..10).rev().collect();
    let next = breed_networks(&population, &order, 3);
    assert_eq!(next.len(), 10);
    assert_eq!(next[0], population[9]);
    assert_eq!(next[1], population[8]);
    for child in &next[2..] {
        assert!(child.iter().all(|g| *g >= 7));
    }
}
