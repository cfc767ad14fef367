use genesis::darwin::{
    breed_child, opcode_from_draws, random_opcode, ChildDraws, EvolutionaryEngine, FitnessMode, GenerationStatus, Genotype, ELITE_COUNT,
    POPULATION_SIZE, SEQUENCE_LENGTH,
};
use genesis::vm::Opcode;

fn random_shaped(op: &Opcode) -> bool {
    let reg = |r: u8| r < 8;
    match *op {
        Opcode::Nop | Opcode::Hlt => true,
        Opcode::Inc(r) | Opcode::Dec(r) | Opcode::IoOut(r) => reg(r),
        Opcode::Add(d, s)
        | Opcode::Sub(d, s)
        | Opcode::Mul(d, s)
        | Opcode::Div(d, s)
        | Opcode::Mov(d, s)
        | Opcode::Ld(d, s)
        | Opcode::St(d, s) => reg(d) && reg(s),
        Opcode::Ldi(d, imm) => reg(d) && (-10..20).contains(&imm),
        Opcode::Jmp(o) => (-5..5).contains(&o),
        Opcode::Jz(r, o) => reg(r) && (-5..5).contains(&o),
    }
}

#[test]
fn random_opcodes_have_the_drawn_shape() {
    let mut rng = rand::rng();
    let mut kinds = std::collections::HashSet::new();
    for _ in 0..3000 {
        let op = random_opcode(&mut rng);
        assert!(random_shaped(&op), "{:?}", op);
        kinds.insert(std::mem::discriminant(&op));
    }
    assert_eq!(kinds.len(), 15);
}

#[test]
fn genotypes() {
    let g = Genotype::new();
    assert!(g.sequence.is_empty());
    assert_eq!(g.fitness, 0);
    let mut rng = rand::rng();
    let g = Genotype::random(&mut rng);
    assert_eq!(g.sequence.len(), SEQUENCE_LENGTH);
    assert!(g.sequence.iter().all(random_shaped));
    assert_eq!(g.fitness, 0);
    let copy = g.duplicate();
    assert_eq!(copy.sequence, g.sequence);
    assert_eq!(copy.fitness, g.fitness);
}

#[test]
fn modes_by_name() {
    assert_eq!(FitnessMode::from_name("logic"), FitnessMode::Logic);
    assert_eq!(FitnessMode::from_name("math"), FitnessMode::Math);
    assert_eq!(FitnessMode::from_name("fault_tolerance"), FitnessMode::FaultTolerance);
    assert_eq!(FitnessMode::from_name("Logic"), FitnessMode::Unscored);
    assert_eq!(FitnessMode::from_name(""), FitnessMode::Unscored);
}

#[test]
fn xor_program_scores_full_marks() {
    let xor = [Opcode::Sub(0, 1), Opcode::Mul(0, 0), Opcode::Hlt];
    assert_eq!(EvolutionaryEngine::evaluate_fitness(&xor, "logic"), 400);
}

#[test]
fn identity_program_scores_on_xor_and_doubling() {
    assert_eq!(EvolutionaryEngine::evaluate_fitness(&[], "logic"), 180);
    assert_eq!(EvolutionaryEngine::evaluate_fitness(&[], "math"), -85);
}

#[test]
fn doubling_program_scores_full_marks() {
    let double = [Opcode::Add(0, 0)];
    assert_eq!(EvolutionaryEngine::evaluate_fitness(&double, "math"), 300);
    let far_off = [Opcode::Ldi(0, i32::MIN)];
    let expected = -5 * ((4i64 - i32::MIN as i64) + (10i64 - i32::MIN as i64) + (20i64 - i32::MIN as i64));
    assert_eq!(EvolutionaryEngine::evaluate_fitness(&far_off, "math"), expected);
}

#[test]
fn irradiated_scores_stay_within_bounds() {
    let double = [Opcode::Add(0, 0)];
    for _ in 0..5 {
        let score = EvolutionaryEngine::evaluate_fitness(&double, "fault_tolerance");
        assert!(score <= 300);
        assert!(score >= -15 * (1i64 << 33));
    }
    // A program that halts at once leaves every input undoubled.
    let halt = [Opcode::Hlt];
    let score = EvolutionaryEngine::evaluate_fitness(&halt, "fault_tolerance");
    assert!(score <= 300);
}

#[test]
fn unknown_mode_scores_zero() {
    assert_eq!(EvolutionaryEngine::evaluate_fitness(&[Opcode::Add(0, 0)], "speed"), 0);
}

#[test]
fn new_engine_holds_a_fresh_population() {
    let engine = EvolutionaryEngine::new("logic");
    assert_eq!(engine.mode, "logic");
    assert_eq!(engine.population.len(), POPULATION_SIZE);
    assert!(engine
        .population
        .iter()
        .all(|g| g.sequence.len() == SEQUENCE_LENGTH && g.fitness == 0 && g.sequence.iter().all(random_shaped)));
    assert!(engine.can_breed());
}

fn engine_with_fitness(mode: &str) -> EvolutionaryEngine {
    let mut engine = EvolutionaryEngine::new(mode);
    for (i, g) in engine.population.iter_mut().enumerate() {
        g.fitness = ((i * 37) % 101) as i64;
    }
    engine
}

#[test]
fn ranking_is_stable_and_descending() {
    let mut engine = engine_with_fitness("math");
    let before: Vec<(i64, Vec<Opcode>)> =
        engine.population.iter().map(|g| (g.fitness, g.sequence.clone())).collect();
    engine.rank_population();
    let after: Vec<(i64, Vec<Opcode>)> =
        engine.population.iter().map(|g| (g.fitness, g.sequence.clone())).collect();
    let mut expected = before.clone();
    expected.sort_by(|a, b| b.0.cmp(&a.0));
    assert_eq!(after, expected);
    assert_eq!(after[0].0, 100);
}

#[test]
fn generation_status_reports_every_hundred_generations() {
    let mut engine = engine_with_fitness("logic");
    engine.rank_population();
    assert_eq!(engine.generation_status(5), GenerationStatus::Quiet);
    assert_eq!(engine.generation_status(200), GenerationStatus::Report(100));
    engine.population[0].fitness = 400;
    assert_eq!(engine.generation_status(0), GenerationStatus::Converged(400));
    engine.mode = "math".to_string();
    engine.population[0].fitness = 300;
    assert_eq!(engine.generation_status(100), GenerationStatus::Converged(300));
    engine.population[0].fitness = 299;
    assert_eq!(engine.generation_status(100), GenerationStatus::Report(299));
}

#[test]
fn breeding_keeps_elites_and_descends_from_the_best() {
    let mut engine = engine_with_fitness("math");
    engine.rank_population();
    let parents: Vec<(i64, Vec<Opcode>)> =
        engine.population.iter().map(|g| (g.fitness, g.sequence.clone())).collect();
    engine.breed_next_generation();
    assert_eq!(engine.population.len(), POPULATION_SIZE);
    for i in 0..ELITE_COUNT {
        assert_eq!(engine.population[i].fitness, parents[i].0);
        assert_eq!(engine.population[i].sequence, parents[i].1);
    }
    let best = &parents[0];
    for child in &engine.population[ELITE_COUNT..] {
        assert_eq!(child.fitness, best.0);
        assert_eq!(child.sequence.len(), best.1.len());
        for (gene, parent_gene) in child.sequence.iter().zip(best.1.iter()) {
            assert!(gene == parent_gene || random_shaped(gene));
        }
    }
    assert!(engine.can_breed());
}

#[test]
fn one_generation_ranks_reports_and_breeds() {
    let mut engine = engine_with_fitness("logic");
    let status = engine.evolve_generation(0);
    assert_eq!(status, GenerationStatus::Report(100));
    assert_eq!(engine.population.len(), POPULATION_SIZE);
    assert_eq!(engine.population[0].fitness, 100);
    let mut engine = engine_with_fitness("logic");
    engine.population[3].fitness = 500;
    let status = engine.evolve_generation(300);
    assert_eq!(status, GenerationStatus::Converged(500));
    assert_eq!(engine.population[0].fitness, 500);
    assert_eq!(engine.population[1].fitness, 100);
}

#[test]
fn small_population_cannot_breed() {
    let mut engine = EvolutionaryEngine::new("logic");
    engine.population.truncate(10);
    assert!(!engine.can_breed());
    let mut engine = EvolutionaryEngine::new("logic");
    engine.population[7].sequence.pop();
    assert!(!engine.can_breed());
}

#[test]
fn draws_choose_the_instruction() {
    assert_eq!(opcode_from_draws(0, 0, 0), Opcode::Nop);
    assert_eq!(opcode_from_draws(1, 3, 0), Opcode::Inc(3));
    assert_eq!(opcode_from_draws(2, 4, 0), Opcode::Dec(4));
    assert_eq!(opcode_from_draws(3, 1, 2), Opcode::Add(1, 2));
    assert_eq!(opcode_from_draws(4, 1, 2), Opcode::Sub(1, 2));
    assert_eq!(opcode_from_draws(5, 1, 2), Opcode::Mul(1, 2));
    assert_eq!(opcode_from_draws(6, 1, 2), Opcode::Div(1, 2));
    assert_eq!(opcode_from_draws(7, 1, 2), Opcode::Mov(1, 2));
    assert_eq!(opcode_from_draws(8, 5, -7), Opcode::Ldi(5, -7));
    assert_eq!(opcode_from_draws(9, -3, 0), Opcode::Jmp(-3));
    assert_eq!(opcode_from_draws(10, 6, 4), Opcode::Jz(6, 4));
    assert_eq!(opcode_from_draws(11, 7, 0), Opcode::IoOut(7));
    assert_eq!(opcode_from_draws(12, 0, 7), Opcode::Ld(0, 7));
    assert_eq!(opcode_from_draws(13, 2, 3), Opcode::St(2, 3));
    assert_eq!(opcode_from_draws(14, 0, 0), Opcode::Hlt);
}

#[test]
fn genotypes_and_engines_from_draws() {
    let draws = vec![(1, 2, 0), (9, -1, 0), (14, 0, 0)];
    let g = Genotype::from_draws(&draws);
    assert_eq!(g.sequence, vec![Opcode::Inc(2), Opcode::Jmp(-1), Opcode::Hlt]);
    assert_eq!(g.fitness, 0);
    let engine = EvolutionaryEngine::from_draws("math", &vec![draws.clone(), vec![(0, 0, 0)]]);
    assert_eq!(engine.mode, "math");
    assert_eq!(engine.population.len(), 2);
    assert_eq!(engine.population[1].sequence, vec![Opcode::Nop]);
}

fn numbered_population() -> Vec<Genotype> {
    (0..POPULATION_SIZE)
        .map(|k| Genotype {
            sequence: (0..SEQUENCE_LENGTH).map(|i| Opcode::Ldi((k % 8) as u8, i as i32)).collect(),
            fitness: (k % 50) as i64,
        })
        .collect()
}

#[test]
fn child_is_bred_exactly_as_drawn() {
    let population = numbered_population();
    let mut mutations = vec![None; SEQUENCE_LENGTH];
    mutations[2] = Some(Opcode::Hlt);
    mutations[40] = Some(Opcode::Inc(1));
    // Entrants 49 and 99 have fitness 49; the earlier one wins the tie.
    let draws = ChildDraws {
        first: [10, 49, 99],
        crosses: true,
        second: [3, 1, 2],
        cut: 30,
        mutations,
    };
    let child = breed_child(&population, &draws);
    assert_eq!(child.fitness, 49);
    for i in 0..SEQUENCE_LENGTH {
        let expected = if i == 2 {
            Opcode::Hlt
        } else if i == 40 {
            Opcode::Inc(1)
        } else if i >= 30 {
            population[3].sequence[i]
        } else {
            population[49].sequence[i]
        };
        assert_eq!(child.sequence[i], expected);
    }
    // Without crossing over and without replacements the child is a copy
    // of the winner; an entrant no fitter than the first genotype never wins.
    let plain = ChildDraws {
        first: [50, 100, 150],
        crosses: false,
        second: [0, 0, 0],
        cut: 0,
        mutations: vec![None; SEQUENCE_LENGTH],
    };
    let child = breed_child(&population, &plain);
    assert_eq!(child.sequence, population[0].sequence);
    assert_eq!(child.fitness, 0);
}

#[test]
fn best_program_survives_a_generation() {
    let mut engine = EvolutionaryEngine::new("math");
    for g in engine.population.iter_mut() {
        g.fitness = EvolutionaryEngine::evaluate_fitness(&g.sequence, "math");
    }
    let best_before = engine.population.iter().map(|g| g.fitness).max().unwrap();
    engine.evolve_generation(1);
    let first = EvolutionaryEngine::evaluate_fitness(&engine.population[0].sequence, "math");
    assert!(first >= best_before);
}
