//! Evolutionary search for machine programs: random genotypes, fitness
//! evaluation against target functions, and breeding.

use vstd::prelude::*;
use rand::rngs::ThreadRng;
use crate::random::{random_in, random_ratio, thread_rng};
use crate::ranking::{sort_by_fitness, sorted_by_fitness, is_ranking, ranks_as};
use crate::vm::{AstVM, Opcode, VmState, BitFlips, NUM_REGISTERS, MEMORY_SIZE, abs};

verus! {

broadcast use vstd::string::group_string_axioms;

/// Number of instructions of a random genotype.
pub const SEQUENCE_LENGTH: usize = 64;
/// Number of genotypes in a population.
pub const POPULATION_SIZE: usize = 2000;
/// Number of best genotypes carried over unchanged into the next generation.
pub const ELITE_COUNT: usize = POPULATION_SIZE / 10;
/// Generations between two progress reports.
pub const REPORT_INTERVAL: usize = 100;

/// A candidate program and the fitness it was last scored with.
#[derive(Clone, Debug)]
pub struct Genotype {
    pub sequence: Vec<Opcode>,
    pub fitness: i64,
}

/// The value of a genotype: its program and its fitness.
pub struct GenotypeView {
    pub sequence: Seq<Opcode>,
    pub fitness: i64,
}

impl View for Genotype {
    type V = GenotypeView;

    open spec fn view(&self) -> GenotypeView {
        GenotypeView { sequence: self.sequence@, fitness: self.fitness }
    }
}

/// The values of the genotypes of a population, in order.
pub open spec fn population_view(population: Seq<Genotype>) -> Seq<GenotypeView> {
    population.map_values(|g: Genotype| g@)
}

/// The instructions `random_opcode` draws: register operands below
/// `NUM_REGISTERS`, `Ldi` immediates in `-10..20`, and jump offsets in
/// `-5..5`.
pub open spec fn is_random_shape(op: Opcode) -> bool {
    match op {
        Opcode::Nop => true,
        Opcode::Inc(r) => r < NUM_REGISTERS,
        Opcode::Dec(r) => r < NUM_REGISTERS,
        Opcode::Add(d, s) => d < NUM_REGISTERS && s < NUM_REGISTERS,
        Opcode::Sub(d, s) => d < NUM_REGISTERS && s < NUM_REGISTERS,
        Opcode::Mul(d, s) => d < NUM_REGISTERS && s < NUM_REGISTERS,
        Opcode::Div(d, s) => d < NUM_REGISTERS && s < NUM_REGISTERS,
        Opcode::Mov(d, s) => d < NUM_REGISTERS && s < NUM_REGISTERS,
        Opcode::Ldi(d, imm) => d < NUM_REGISTERS && -10 <= imm < 20,
        Opcode::Jmp(offset) => -5 <= offset < 5,
        Opcode::Jz(r, offset) => r < NUM_REGISTERS && -5 <= offset < 5,
        Opcode::IoOut(r) => r < NUM_REGISTERS,
        Opcode::Ld(d, a) => d < NUM_REGISTERS && a < NUM_REGISTERS,
        Opcode::St(a, s) => a < NUM_REGISTERS && s < NUM_REGISTERS,
        Opcode::Hlt => true,
    }
}

/// A freshly drawn genotype: `SEQUENCE_LENGTH` random instructions and
/// fitness zero.
pub open spec fn is_fresh_genotype(g: Genotype) -> bool {
    &&& g.sequence@.len() == SEQUENCE_LENGTH
    &&& forall|i: int| 0 <= i < SEQUENCE_LENGTH ==> #[trigger] is_random_shape(g.sequence@[i])
    &&& g.fitness == 0
}

/// The instruction that the draws `kind`, `x` and `y` stand for: `kind`
/// picks one of the fifteen instructions in the order they are declared,
/// and `x` and `y` give its operands in turn (registers, then an immediate
/// or an offset).
pub open spec fn opcode_of(kind: i64, x: i64, y: i64) -> Opcode {
    if kind == 0 {
        Opcode::Nop
    } else if kind == 1 {
        Opcode::Inc(x as u8)
    } else if kind == 2 {
        Opcode::Dec(x as u8)
    } else if kind == 3 {
        Opcode::Add(x as u8, y as u8)
    } else if kind == 4 {
        Opcode::Sub(x as u8, y as u8)
    } else if kind == 5 {
        Opcode::Mul(x as u8, y as u8)
    } else if kind == 6 {
        Opcode::Div(x as u8, y as u8)
    } else if kind == 7 {
        Opcode::Mov(x as u8, y as u8)
    } else if kind == 8 {
        Opcode::Ldi(x as u8, y as i32)
    } else if kind == 9 {
        Opcode::Jmp(x as i32)
    } else if kind == 10 {
        Opcode::Jz(x as u8, y as i32)
    } else if kind == 11 {
        Opcode::IoOut(x as u8)
    } else if kind == 12 {
        Opcode::Ld(x as u8, y as u8)
    } else if kind == 13 {
        Opcode::St(x as u8, y as u8)
    } else {
        Opcode::Hlt
    }
}

/// The draws `random_opcode` makes: a kind in `0..15`, registers in
/// `0..NUM_REGISTERS`, an `Ldi` immediate in `-10..20` and jump offsets in
/// `-5..5`; operands the kind does not use are zero.
pub open spec fn draws_in_range(kind: i64, x: i64, y: i64) -> bool {
    let reg = |v: i64| 0 <= v < NUM_REGISTERS;
    &&& 0 <= kind < 15
    &&& (kind == 0 || kind == 14) ==> x == 0 && y == 0
    &&& (kind == 1 || kind == 2 || kind == 11) ==> reg(x) && y == 0
    &&& (3 <= kind <= 7 || kind == 12 || kind == 13) ==> reg(x) && reg(y)
    &&& kind == 8 ==> reg(x) && -10 <= y < 20
    &&& kind == 9 ==> -5 <= x < 5 && y == 0
    &&& kind == 10 ==> reg(x) && -5 <= y < 5
}

/// An instruction that some in-range draws stand for.
pub open spec fn is_drawn_opcode(op: Opcode) -> bool {
    exists|kind: i64, x: i64, y: i64| draws_in_range(kind, x, y) && op == #[trigger] opcode_of(kind, x, y)
}

proof fn lemma_drawn_shape(kind: i64, x: i64, y: i64)
    requires
        draws_in_range(kind, x, y),
    ensures
        is_random_shape(opcode_of(kind, x, y)),
        is_drawn_opcode(opcode_of(kind, x, y)),
{
}

/// The instruction the draws `kind`, `x`, `y` stand for.
pub fn opcode_from_draws(kind: i64, x: i64, y: i64) -> (op: Opcode)
    ensures
        op == opcode_of(kind, x, y),
{
    match kind {
        0 => Opcode::Nop,
        1 => Opcode::Inc(x as u8),
        2 => Opcode::Dec(x as u8),
        3 => Opcode::Add(x as u8, y as u8),
        4 => Opcode::Sub(x as u8, y as u8),
        5 => Opcode::Mul(x as u8, y as u8),
        6 => Opcode::Div(x as u8, y as u8),
        7 => Opcode::Mov(x as u8, y as u8),
        8 => Opcode::Ldi(x as u8, y as i32),
        9 => Opcode::Jmp(x as i32),
        10 => Opcode::Jz(x as u8, y as i32),
        11 => Opcode::IoOut(x as u8),
        12 => Opcode::Ld(x as u8, y as u8),
        13 => Opcode::St(x as u8, y as u8),
        _ => Opcode::Hlt,
    }
}

fn random_register(rng: &mut ThreadRng) -> (r: i64)
    ensures
        0 <= r < NUM_REGISTERS,
{
    random_in(rng, 0, NUM_REGISTERS as i64)
}

/// Draws the kind of an instruction uniformly among the fifteen, then the
/// operands that kind uses, in order.
fn draw_opcode(rng: &mut ThreadRng) -> (d: (i64, i64, i64))
    ensures
        draws_in_range(d.0, d.1, d.2),
{
    let kind = random_in(rng, 0, 15);
    if kind == 0 || kind == 14 {
        (kind, 0, 0)
    } else if kind == 1 || kind == 2 || kind == 11 {
        (kind, random_register(rng), 0)
    } else if kind == 8 {
        let d = random_register(rng);
        (kind, d, random_in(rng, -10, 20))
    } else if kind == 9 {
        (kind, random_in(rng, -5, 5), 0)
    } else if kind == 10 {
        let r = random_register(rng);
        (kind, r, random_in(rng, -5, 5))
    } else {
        let d = random_register(rng);
        (kind, d, random_register(rng))
    }
}

/// Draws an instruction: the kind uniformly among the fifteen, then its
/// operands.
pub fn random_opcode(rng: &mut ThreadRng) -> (op: Opcode)
    ensures
        is_random_shape(op),
        exists|kind: i64, x: i64, y: i64|
            draws_in_range(kind, x, y) && op == #[trigger] opcode_of(kind, x, y),
{
    let (kind, x, y) = draw_opcode(rng);
    proof {
        lemma_drawn_shape(kind, x, y);
    }
    opcode_from_draws(kind, x, y)
}

/// The genotype that a sequence of instruction draws stands for: one
/// instruction per draw, fitness zero.
pub open spec fn genotype_of(draws: Seq<(i64, i64, i64)>) -> GenotypeView {
    GenotypeView {
        sequence: draws.map_values(|d: (i64, i64, i64)| opcode_of(d.0, d.1, d.2)),
        fitness: 0,
    }
}

/// The population that lists of instruction draws stand for, one genotype
/// per list.
pub open spec fn population_of(draws: Seq<Vec<(i64, i64, i64)>>) -> Seq<GenotypeView> {
    draws.map_values(|d: Vec<(i64, i64, i64)>| genotype_of(d@))
}

/// `SEQUENCE_LENGTH` in-range instruction draws.
pub open spec fn genotype_draws(draws: Seq<(i64, i64, i64)>) -> bool {
    &&& draws.len() == SEQUENCE_LENGTH
    &&& forall|i: int| 0 <= i < draws.len() ==> #[trigger] draws_in_range(draws[i].0, draws[i].1, draws[i].2)
}

fn draw_genotype(rng: &mut ThreadRng) -> (draws: Vec<(i64, i64, i64)>)
    ensures
        genotype_draws(draws@),
{
    let mut draws: Vec<(i64, i64, i64)> = Vec::with_capacity(SEQUENCE_LENGTH);
    for i in 0..SEQUENCE_LENGTH
        invariant
            draws@.len() == i,
            forall|j: int| 0 <= j < i ==> #[trigger] draws_in_range(draws@[j].0, draws@[j].1, draws@[j].2),
    {
        draws.push(draw_opcode(rng));
    }
    draws
}

proof fn lemma_drawn_genotype_is_fresh(g: Genotype, draws: Seq<(i64, i64, i64)>)
    requires
        genotype_draws(draws),
        g@ == genotype_of(draws),
    ensures
        is_fresh_genotype(g),
{
    assert forall|i: int| 0 <= i < SEQUENCE_LENGTH implies #[trigger] is_random_shape(g.sequence@[i]) by {
        assert(draws_in_range(draws[i].0, draws[i].1, draws[i].2));
        lemma_drawn_shape(draws[i].0, draws[i].1, draws[i].2);
        assert(g.sequence@[i] == genotype_of(draws).sequence[i]);
    }
}

impl Genotype {
    /// An empty program with fitness zero.
    pub fn new() -> (g: Genotype)
        ensures
            g.sequence@ == Seq::<Opcode>::empty(),
            g.fitness == 0,
    {
        Genotype { sequence: Vec::with_capacity(SEQUENCE_LENGTH), fitness: 0 }
    }

    /// The genotype the instruction draws `draws` stand for: one instruction
    /// per draw, fitness zero.
    pub fn from_draws(draws: &Vec<(i64, i64, i64)>) -> (g: Genotype)
        ensures
            g@ == genotype_of(draws@),
    {
        let mut genotype = Self::new();
        for i in 0..draws.len()
            invariant
                genotype.fitness == 0,
                genotype.sequence@ =~= genotype_of(draws@).sequence.take(i as int),
        {
            let (kind, x, y) = draws[i];
            genotype.sequence.push(opcode_from_draws(kind, x, y));
        }
        assert(genotype.sequence@ =~= genotype_of(draws@).sequence);
        genotype
    }

    /// `SEQUENCE_LENGTH` random instructions with fitness zero.
    pub fn random(rng: &mut ThreadRng) -> (g: Genotype)
        ensures
            is_fresh_genotype(g),
            exists|draws: Seq<(i64, i64, i64)>| genotype_draws(draws) && g@ == #[trigger] genotype_of(draws),
    {
        let draws = draw_genotype(rng);
        let g = Self::from_draws(&draws);
        proof {
            lemma_drawn_genotype_is_fresh(g, draws@);
        }
        g
    }

    /// A copy of this genotype.
    pub fn duplicate(&self) -> (g: Genotype)
        ensures
            g@ == self@,
    {
        Genotype {
            sequence: vstd::slice::slice_to_vec(self.sequence.as_slice()),
            fitness: self.fitness,
        }
    }
}

} // verus!

verus! {

/// The task a population is scored on, by the name an engine is built
/// with.
#[derive(Clone, Copy, Debug, PartialEq, Eq, Structural)]
pub enum FitnessMode {
    /// `"logic"`: register 0 must hold the XOR of the inputs in registers 0
    /// and 1.
    Logic,
    /// `"math"`: register 0 must end up holding twice its input.
    Math,
    /// `"fault_tolerance"`: doubling, under random bit flips.
    FaultTolerance,
    /// Any other name: every program scores zero.
    Unscored,
}

/// The mode a name selects.
pub open spec fn mode_named(name: Seq<char>) -> FitnessMode {
    if name == "logic"@ {
        FitnessMode::Logic
    } else if name == "math"@ {
        FitnessMode::Math
    } else if name == "fault_tolerance"@ {
        FitnessMode::FaultTolerance
    } else {
        FitnessMode::Unscored
    }
}

/// Calls `==` on two string slices, which compares their characters.
#[verifier::external_body]
fn same_text(a: &str, b: &str) -> (r: bool)
    ensures
        r == (a@ == b@),
{
    a == b
}

impl FitnessMode {
    /// The mode selected by `name`.
    pub fn from_name(name: &str) -> (m: FitnessMode)
        ensures
            m == mode_named(name@),
    {
        if same_text(name, "logic") {
            FitnessMode::Logic
        } else if same_text(name, "math") {
            FitnessMode::Math
        } else if same_text(name, "fault_tolerance") {
            FitnessMode::FaultTolerance
        } else {
            FitnessMode::Unscored
        }
    }
}

/// Register 0 after running `program` with `a` in register 0 and `b` in
/// register 1.
pub open spec fn xor_output(program: Seq<Opcode>, a: i32, b: i32) -> i32 {
    VmState::loaded(program).with_reg(0, a).with_reg(1, b).run().registers[0]
}

/// Register 0 after running `program` with `x` in register 0.
pub open spec fn doubling_output(program: Seq<Opcode>, x: i32) -> i32 {
    VmState::loaded(program).with_reg(0, x).run().registers[0]
}

/// The score of one test case: `reward` for the expected result, otherwise
/// minus `penalty` times the distance to it.
pub open spec fn case_score(result: i32, expected: int, reward: int, penalty: int) -> int {
    if result == expected {
        reward
    } else {
        -(penalty * abs(result - expected))
    }
}

/// The XOR score: 100 per correct row of the truth table, minus ten times
/// the distance for a wrong one.
pub open spec fn logic_score(program: Seq<Opcode>) -> int {
    case_score(xor_output(program, 0, 0), 0, 100, 10) + case_score(
        xor_output(program, 0, 1),
        1,
        100,
        10,
    ) + case_score(xor_output(program, 1, 0), 1, 100, 10) + case_score(
        xor_output(program, 1, 1),
        0,
        100,
        10,
    )
}

/// The doubling score over the inputs 2, 5 and 10: 100 per correct result,
/// minus five times the distance for a wrong one.
pub open spec fn math_score(program: Seq<Opcode>) -> int {
    case_score(doubling_output(program, 2), 4, 100, 5) + case_score(
        doubling_output(program, 5),
        10,
        100,
        5,
    ) + case_score(doubling_output(program, 10), 20, 100, 5)
}

/// The input of the `k`-th irradiated trial: five trials each of 2, 5
/// and 10.
pub open spec fn fault_input(k: int) -> i32 {
    if k < 5 {
        2
    } else if k < 10 {
        5
    } else {
        10
    }
}

/// The score of irradiated trials with the given results: 20 per correct
/// doubling, minus the distance for a wrong one.
pub open spec fn fault_score(results: Seq<i32>) -> int
    decreases results.len(),
{
    if results.len() == 0 {
        0
    } else {
        fault_score(results.drop_last()) + case_score(
            results.last(),
            2 * fault_input(results.len() - 1),
            20,
            1,
        )
    }
}

/// `r` is what register 0 can hold when `program` runs to its end with `x`
/// in register 0 and some bit flips striking it along the way.
pub open spec fn irradiated_output(program: Seq<Opcode>, x: i32, r: i32) -> bool {
    exists|history: Seq<BitFlips>|
        {
            &&& forall|i: int| 0 <= i < history.len() ==> #[trigger] history[i].in_range()
            &&& #[trigger] VmState::loaded(program).with_reg(0, x).run_irradiated(history).halted
            &&& VmState::loaded(program).with_reg(0, x).run_irradiated(history).registers[0] == r
        }
}

/// Fifteen results, each one an outcome of the corresponding irradiated
/// trial.
pub open spec fn fault_outcomes(program: Seq<Opcode>, results: Seq<i32>) -> bool {
    &&& results.len() == 15
    &&& forall|k: int| 0 <= k < 15 ==> irradiated_output(program, fault_input(k), #[trigger] results[k])
}

/// `|result - expected|` as a wide integer.
fn distance(result: i32, expected: i32) -> (d: i64)
    ensures
        d == abs(result - expected),
{
    let diff = result as i64 - expected as i64;
    if diff < 0 {
        -diff
    } else {
        diff
    }
}

fn score_case(result: i32, expected: i32, reward: i64, penalty: i64) -> (s: i64)
    requires
        0 <= reward <= 100,
        0 <= penalty <= 10,
    ensures
        s == case_score(result, expected as int, reward as int, penalty as int),
        -10 * 0x1_0000_0000 <= s <= reward,
{
    if result == expected {
        reward
    } else {
        let d = distance(result, expected);
        assert(penalty * d <= 10 * 0x1_0000_0000) by (nonlinear_arith)
            requires
                0 <= penalty <= 10,
                0 <= d <= 0x1_0000_0000,
        ;
        -(penalty * d)
    }
}

fn xor_trial(vm: &mut AstVM, sequence: &[Opcode], a: i32, b: i32) -> (r: i32)
    ensures
        r == xor_output(sequence@, a, b),
{
    vm.load(sequence);
    vm.registers[0] = a;
    vm.registers[1] = b;
    proof {
        assert(vm@ =~= VmState::loaded(sequence@).with_reg(0, a).with_reg(1, b));
    }
    vm.run();
    vm.registers[0]
}

fn doubling_trial(vm: &mut AstVM, sequence: &[Opcode], x: i32) -> (r: i32)
    ensures
        r == doubling_output(sequence@, x),
{
    vm.load(sequence);
    vm.registers[0] = x;
    proof {
        assert(vm@ =~= VmState::loaded(sequence@).with_reg(0, x));
    }
    vm.run();
    vm.registers[0]
}

fn irradiated_trial(vm: &mut AstVM, sequence: &[Opcode], x: i32) -> (r: i32)
    ensures
        irradiated_output(sequence@, x, r),
{
    vm.load(sequence);
    vm.registers[0] = x;
    let ghost start = vm@;
    proof {
        assert(start =~= VmState::loaded(sequence@).with_reg(0, x));
    }
    vm.run_with_radiation(1, 50);
    let r = vm.registers[0];
    proof {
        let history = choose|history: Seq<BitFlips>|
            {
                &&& forall|i: int| 0 <= i < history.len() ==> #[trigger] history[i].in_range()
                &&& vm@ == start.run_irradiated(history)
            };
        assert(VmState::loaded(sequence@).with_reg(0, x).run_irradiated(history).halted);
    }
    r
}

impl FitnessMode {
    /// The score a program earns in this mode, as `evaluate_fitness` states
    /// it for the modes whose score does not rest on chance.
    pub open spec fn score(self, program: Seq<Opcode>) -> int {
        match self {
            FitnessMode::Logic => logic_score(program),
            FitnessMode::Math => math_score(program),
            _ => 0,
        }
    }
}

/// The score `evaluate_fitness` can give a program in the mode named
/// `mode`: exact for the XOR and doubling tasks and for unknown names, and
/// for the irradiated task the score of some possible outcome of its
/// fifteen trials.
pub open spec fn possible_fitness(program: Seq<Opcode>, mode: Seq<char>, score: int) -> bool {
    if mode_named(mode) == FitnessMode::FaultTolerance {
        exists|results: Seq<i32>| fault_outcomes(program, results) && score == fault_score(results)
    } else {
        score == mode_named(mode).score(program)
    }
}

} // verus!

verus! {

/// A population of genotypes and the name of the task they are scored on.
pub struct EvolutionaryEngine {
    pub population: Vec<Genotype>,
    pub mode: String,
}

impl EvolutionaryEngine {
    /// The engine whose population the instruction draws `draws` stand for,
    /// one genotype per entry, to be scored in the mode named `mode`.
    pub fn from_draws(mode: &str, draws: &Vec<Vec<(i64, i64, i64)>>) -> (engine: EvolutionaryEngine)
        ensures
            engine.population@.len() == draws@.len(),
            population_view(engine.population@) == population_of(draws@),
            engine.mode@ == mode@,
    {
        let mut population: Vec<Genotype> = Vec::with_capacity(draws.len());
        for i in 0..draws.len()
            invariant
                population@.len() == i,
                population_view(population@) =~= population_of(draws@).take(i as int),
        {
            let g = Genotype::from_draws(&draws[i]);
            let ghost before = population@;
            population.push(g);
            proof {
                assert(population_of(draws@)[i as int] == genotype_of(draws@[i as int]@));
                assert(population_view(population@)[i as int] == g@);
                assert forall|j: int| 0 <= j < i implies population_view(population@)[j] == population_view(before)[j] by {
                    assert(population@[j] == before[j]);
                }
                assert(population_view(population@) =~= population_of(draws@).take(i + 1));
            }
        }
        assert(population_view(population@) =~= population_of(draws@));
        EvolutionaryEngine { population, mode: mode.to_string() }
    }

    /// `POPULATION_SIZE` fresh random genotypes, to be scored in the mode
    /// named `mode`.
    pub fn new(mode: &str) -> (engine: EvolutionaryEngine)
        ensures
            engine.population@.len() == POPULATION_SIZE,
            forall|i: int|
                0 <= i < POPULATION_SIZE ==> is_fresh_genotype(#[trigger] engine.population@[i]),
            exists|draws: Seq<Vec<(i64, i64, i64)>>|
                {
                    &&& draws.len() == POPULATION_SIZE
                    &&& forall|i: int| 0 <= i < POPULATION_SIZE ==> genotype_draws(#[trigger] draws[i]@)
                    &&& population_view(engine.population@) == population_of(draws)
                },
            engine.mode@ == mode@,
    {
        let mut rng = thread_rng();
        let mut draws: Vec<Vec<(i64, i64, i64)>> = Vec::with_capacity(POPULATION_SIZE);
        for i in 0..POPULATION_SIZE
            invariant
                draws@.len() == i,
                forall|j: int| 0 <= j < i ==> genotype_draws(#[trigger] draws@[j]@),
        {
            draws.push(draw_genotype(&mut rng));
        }
        let engine = Self::from_draws(mode, &draws);
        proof {
            assert forall|i: int| 0 <= i < POPULATION_SIZE implies is_fresh_genotype(#[trigger] engine.population@[i]) by {
                assert(population_view(engine.population@)[i] == engine.population@[i]@);
                assert(population_of(draws@)[i] == genotype_of(draws@[i]@));
                lemma_drawn_genotype_is_fresh(engine.population@[i], draws@[i]@);
            }
        }
        engine
    }

    /// The score of `sequence` in the mode named `mode`. XOR: four table
    /// rows worth 100 each when right and minus ten times the distance when
    /// wrong. Doubling: three inputs worth 100 each, minus five times the
    /// distance. Irradiated doubling: five trials per input under bit flips
    /// with probability 1/50 per step, worth 20 each, minus the distance.
    /// Any other name scores zero.
    pub fn evaluate_fitness(sequence: &[Opcode], mode: &str) -> (score: i64)
        ensures
            possible_fitness(sequence@, mode@, score as int),
    {
        let mut vm = AstVM::new();
        match FitnessMode::from_name(mode) {
            FitnessMode::Logic => {
                let mut score: i64 = 0;
                score = score + score_case(xor_trial(&mut vm, sequence, 0, 0), 0, 100, 10);
                score = score + score_case(xor_trial(&mut vm, sequence, 0, 1), 1, 100, 10);
                score = score + score_case(xor_trial(&mut vm, sequence, 1, 0), 1, 100, 10);
                score = score + score_case(xor_trial(&mut vm, sequence, 1, 1), 0, 100, 10);
                score
            },
            FitnessMode::Math => {
                let mut score: i64 = 0;
                score = score + score_case(doubling_trial(&mut vm, sequence, 2), 4, 100, 5);
                score = score + score_case(doubling_trial(&mut vm, sequence, 5), 10, 100, 5);
                score = score + score_case(doubling_trial(&mut vm, sequence, 10), 20, 100, 5);
                score
            },
            FitnessMode::FaultTolerance => {
                let inputs: [i32; 3] = [2, 5, 10];
                let mut score: i64 = 0;
                let ghost mut results: Seq<i32> = Seq::empty();
                for t in 0..3
                    invariant
                        inputs@ == seq![2i32, 5i32, 10i32],
                        results.len() == 5 * t,
                        score == fault_score(results),
                        -42949672960 * results.len() <= score <= 20 * results.len(),
                        forall|k: int|
                            0 <= k < results.len() ==> irradiated_output(
                                sequence@,
                                fault_input(k),
                                #[trigger] results[k],
                            ),
                {
                    let x = inputs[t];
                    for trial in 0..5
                        invariant
                            0 <= t < 3,
                            x == inputs@[t as int],
                            inputs@ == seq![2i32, 5i32, 10i32],
                            results.len() == 5 * t + trial,
                            score == fault_score(results),
                            -42949672960 * results.len() <= score <= 20 * results.len(),
                            forall|k: int|
                                0 <= k < results.len() ==> irradiated_output(
                                    sequence@,
                                    fault_input(k),
                                    #[trigger] results[k],
                                ),
                    {
                        let r = irradiated_trial(&mut vm, sequence, x);
                        let s = score_case(r, x * 2, 20, 1);
                        proof {
                            let k = results.len() as int;
                            assert(0 <= k < 15);
                            assert(-42949672960 * (k + 1) <= score + s <= 20 * (k + 1));
                            assert(fault_input(k) == x);
                            assert(results.push(r).drop_last() =~= results);
                            results = results.push(r);
                            assert(results[k] == r);
                        }
                        score = score + s;
                    }
                }
                proof {
                    assert(fault_outcomes(sequence@, results));
                }
                score
            },
            FitnessMode::Unscored => 0,
        }
    }
}

} // verus!

verus! {

proof fn lemma_case_score(result: i32, expected: int, reward: int, penalty: int)
    requires
        reward >= 0,
        penalty >= 1,
    ensures
        case_score(result, expected, reward, penalty) <= reward,
        case_score(result, expected, reward, penalty) == reward <==> result == expected,
{
    if result != expected {
        let d = abs(result - expected);
        assert(penalty * d >= 1) by (nonlinear_arith)
            requires
                penalty >= 1,
                d >= 1,
        ;
    }
}

/// A program scores at most 400 on the XOR task, and exactly 400 when, and
/// only when, it computes XOR on all four rows of the truth table.
pub proof fn lemma_logic_score_perfect(program: Seq<Opcode>)
    ensures
        logic_score(program) <= 400,
        logic_score(program) == 400 <==> {
            &&& xor_output(program, 0, 0) == 0
            &&& xor_output(program, 0, 1) == 1
            &&& xor_output(program, 1, 0) == 1
            &&& xor_output(program, 1, 1) == 0
        },
{
    lemma_case_score(xor_output(program, 0, 0), 0, 100, 10);
    lemma_case_score(xor_output(program, 0, 1), 1, 100, 10);
    lemma_case_score(xor_output(program, 1, 0), 1, 100, 10);
    lemma_case_score(xor_output(program, 1, 1), 0, 100, 10);
}

/// A program scores at most 300 on the doubling task, and exactly 300 when,
/// and only when, it doubles 2, 5 and 10.
pub proof fn lemma_math_score_perfect(program: Seq<Opcode>)
    ensures
        math_score(program) <= 300,
        math_score(program) == 300 <==> {
            &&& doubling_output(program, 2) == 4
            &&& doubling_output(program, 5) == 10
            &&& doubling_output(program, 10) == 20
        },
{
    lemma_case_score(doubling_output(program, 2), 4, 100, 5);
    lemma_case_score(doubling_output(program, 5), 10, 100, 5);
    lemma_case_score(doubling_output(program, 10), 20, 100, 5);
}

/// Irradiated trials score at most 20 each, and reach that total when, and
/// only when, every trial doubled its input.
pub proof fn lemma_fault_score_perfect(results: Seq<i32>)
    ensures
        fault_score(results) <= 20 * results.len(),
        fault_score(results) == 20 * results.len() <==> forall|k: int|
            0 <= k < results.len() ==> #[trigger] results[k] == 2 * fault_input(k),
    decreases results.len(),
{
    if results.len() > 0 {
        let init = results.drop_last();
        let n = results.len() - 1;
        lemma_fault_score_perfect(init);
        lemma_case_score(results.last(), 2 * fault_input(n), 20, 1);
        if fault_score(results) == 20 * results.len() {
            assert forall|k: int| 0 <= k < results.len() implies #[trigger] results[k] == 2
                * fault_input(k) by {
                if k < n {
                    assert(init[k] == results[k]);
                }
            }
        }
        if forall|k: int| 0 <= k < results.len() ==> #[trigger] results[k] == 2 * fault_input(k) {
            assert forall|k: int| 0 <= k < init.len() implies #[trigger] init[k] == 2
                * fault_input(k) by {
                assert(init[k] == results[k]);
            }
            assert(results[n] == 2 * fault_input(n));
        }
    }
}

} // verus!

verus! {

/// `child` is `first` with its instructions from position `cut` up to
/// `SEQUENCE_LENGTH` taken from `second`, after which any of the first
/// `SEQUENCE_LENGTH` instructions may have been replaced by a random one.
/// It carries `first`'s fitness.
pub open spec fn inherits(
    child: GenotypeView,
    first: GenotypeView,
    second: GenotypeView,
    cut: int,
) -> bool {
    &&& child.fitness == first.fitness
    &&& child.sequence.len() == first.sequence.len()
    &&& 0 <= cut <= SEQUENCE_LENGTH
    &&& forall|i: int|
        0 <= i < child.sequence.len() ==> {
            ||| #[trigger] child.sequence[i] == if cut <= i < SEQUENCE_LENGTH {
                second.sequence[i]
            } else {
                first.sequence[i]
            }
            ||| i < SEQUENCE_LENGTH && is_random_shape(child.sequence[i])
        }
}

/// `child` descends from two tournament winners of `population`: genotypes
/// at least as fit as the first one.
pub open spec fn is_offspring(child: GenotypeView, population: Seq<GenotypeView>) -> bool {
    exists|p: int, q: int, cut: int|
        {
            &&& 0 <= p < population.len()
            &&& 0 <= q < population.len()
            &&& population[p].fitness >= population[0].fitness
            &&& population[q].fitness >= population[0].fitness
            &&& #[trigger] inherits(child, population[p], population[q], cut)
        }
}

/// `children` is a generation bred from `parents`: `POPULATION_SIZE`
/// genotypes, the first `ELITE_COUNT` of them the first `ELITE_COUNT`
/// parents unchanged, the rest offspring of the parents.
pub open spec fn is_next_generation(parents: Seq<GenotypeView>, children: Seq<GenotypeView>) -> bool {
    &&& children.len() == POPULATION_SIZE
    &&& forall|i: int| 0 <= i < ELITE_COUNT ==> #[trigger] children[i] == parents[i]
    &&& forall|i: int|
        ELITE_COUNT <= i < POPULATION_SIZE ==> is_offspring(#[trigger] children[i], parents)
}

/// `children` is a generation bred from `parents` under the draws
/// `draws`: `POPULATION_SIZE` genotypes, the first `ELITE_COUNT` of them the
/// first `ELITE_COUNT` parents unchanged, then one child per entry of
/// `draws`, bred as those draws say.
pub open spec fn bred_with(parents: Seq<GenotypeView>, children: Seq<GenotypeView>, draws: Seq<ChildDraws>) -> bool {
    &&& children.len() == POPULATION_SIZE
    &&& draws.len() == POPULATION_SIZE - ELITE_COUNT
    &&& forall|i: int| 0 <= i < ELITE_COUNT ==> #[trigger] children[i] == parents[i]
    &&& forall|k: int|
        0 <= k < draws.len() ==> child_draws_ok(#[trigger] draws[k]) && children[k + ELITE_COUNT]
            == child_of(parents, draws[k])
}

/// A population that breeding can work on: at least `POPULATION_SIZE`
/// genotypes of at least `SEQUENCE_LENGTH` instructions each.
pub open spec fn is_breedable(population: Seq<GenotypeView>) -> bool {
    &&& population.len() >= POPULATION_SIZE
    &&& forall|i: int|
        0 <= i < population.len() ==> #[trigger] population[i].sequence.len() >= SEQUENCE_LENGTH
}

/// What an engine reports after ranking a generation.
#[derive(Clone, Copy, Debug, PartialEq, Eq, Structural)]
pub enum GenerationStatus {
    /// Nothing to report in this generation.
    Quiet,
    /// A progress report with the best fitness.
    Report(i64),
    /// The best fitness reached the target: the search stops.
    Converged(i64),
}

/// The fitness at which the search stops: 400 for the XOR task, 300
/// otherwise.
pub open spec fn convergence_target(mode: Seq<char>) -> int {
    if mode == "logic"@ {
        400
    } else {
        300
    }
}

/// The status of generation `generation` whose best fitness is `best`:
/// every `REPORT_INTERVAL` generations a report, or convergence once the
/// target is reached; quiet otherwise.
pub open spec fn status_of(generation: int, best: i64, mode: Seq<char>) -> GenerationStatus {
    if generation % (REPORT_INTERVAL as int) == 0 {
        if best >= convergence_target(mode) {
            GenerationStatus::Converged(best)
        } else {
            GenerationStatus::Report(best)
        }
    } else {
        GenerationStatus::Quiet
    }
}

/// The draws that breed one child: three tournament entrants for the first
/// parent; whether a second parent contributes, and if so its three
/// entrants and the cut from which its instructions are taken; and for each
/// of the first `SEQUENCE_LENGTH` instructions the random instruction that
/// replaces it, if any.
pub struct ChildDraws {
    pub first: [usize; 3],
    pub crosses: bool,
    pub second: [usize; 3],
    pub cut: usize,
    pub mutations: Vec<Option<Opcode>>,
}

/// The winner of a tournament among `entrants`, starting from the first
/// genotype: an entrant replaces the current winner only when it is
/// strictly fitter.
pub open spec fn tournament_winner(population: Seq<GenotypeView>, entrants: Seq<usize>) -> int
    decreases entrants.len(),
{
    if entrants.len() == 0 {
        0
    } else {
        let best = tournament_winner(population, entrants.drop_last());
        if population[entrants.last() as int].fitness > population[best].fitness {
            entrants.last() as int
        } else {
            best
        }
    }
}

/// Draws that fit a population: entrants below `POPULATION_SIZE`, a cut
/// below `SEQUENCE_LENGTH`, and one entry per instruction, each replacement
/// an instruction `random_opcode` can draw.
pub open spec fn child_draws_ok(d: ChildDraws) -> bool {
    &&& forall|k: int| 0 <= k < 3 ==> #[trigger] d.first@[k] < POPULATION_SIZE
    &&& forall|k: int| 0 <= k < 3 ==> #[trigger] d.second@[k] < POPULATION_SIZE
    &&& d.cut < SEQUENCE_LENGTH
    &&& d.mutations@.len() == SEQUENCE_LENGTH
    &&& forall|i: int|
        0 <= i < SEQUENCE_LENGTH ==> (#[trigger] d.mutations@[i] matches Some(op) ==> is_random_shape(
            op,
        ) && is_drawn_opcode(op))
}

/// The instructions of a child before mutation: those of the first winner,
/// with those from the cut onwards taken from the second winner when the
/// draws cross over.
pub open spec fn crossed_of(population: Seq<GenotypeView>, d: ChildDraws) -> Seq<Opcode> {
    let base = population[tournament_winner(population, d.first@)].sequence;
    if d.crosses {
        let other = population[tournament_winner(population, d.second@)].sequence;
        Seq::new(
            base.len(),
            |i: int| if d.cut <= i < SEQUENCE_LENGTH { other[i] } else { base[i] },
        )
    } else {
        base
    }
}

/// The child that the draws `d` breed from `population`: the crossed
/// instructions with the drawn replacements applied, carrying the first
/// winner's fitness.
pub open spec fn child_of(population: Seq<GenotypeView>, d: ChildDraws) -> GenotypeView {
    let crossed = crossed_of(population, d);
    GenotypeView {
        sequence: Seq::new(
            crossed.len(),
            |i: int|
                if i < SEQUENCE_LENGTH && d.mutations@[i] is Some {
                    d.mutations@[i]->0
                } else {
                    crossed[i]
                },
        ),
        fitness: population[tournament_winner(population, d.first@)].fitness,
    }
}

proof fn lemma_tournament_winner(population: Seq<GenotypeView>, entrants: Seq<usize>)
    requires
        population.len() > 0,
        forall|k: int| 0 <= k < entrants.len() ==> #[trigger] entrants[k] < population.len(),
    ensures
        0 <= tournament_winner(population, entrants) < population.len(),
        population[tournament_winner(population, entrants)].fitness >= population[0].fitness,
        tournament_winner(population, entrants) == 0 || population[tournament_winner(
            population,
            entrants,
        )].fitness > population[0].fitness,
        sorted_by_fitness(population) ==> tournament_winner(population, entrants) == 0,
    decreases entrants.len(),
{
    if entrants.len() > 0 {
        let init = entrants.drop_last();
        assert forall|k: int| 0 <= k < init.len() implies #[trigger] init[k] < population.len() by {
            assert(init[k] == entrants[k]);
        }
        lemma_tournament_winner(population, init);
        assert(entrants.last() < population.len());
    }
}

/// Tournament selection over the drawn entrants, starting from the first
/// genotype: the fittest of them, the earliest on ties, so that another
/// genotype wins only when it is strictly fitter than the first.
fn tournament(population: &Vec<Genotype>, entrants: &[usize; 3]) -> (best: usize)
    requires
        forall|k: int| 0 <= k < 3 ==> #[trigger] entrants@[k] < population@.len(),
    ensures
        best == tournament_winner(population_view(population@), entrants@),
        best < population@.len(),
{
    let ghost pop = population_view(population@);
    assert(entrants@[0] < population@.len());
    let mut best_parent: usize = 0;
    for t in 0..3
        invariant
            pop == population_view(population@),
            forall|k: int| 0 <= k < 3 ==> #[trigger] entrants@[k] < population@.len(),
            best_parent == tournament_winner(pop, entrants@.take(t as int)),
            best_parent < population@.len(),
    {
        let idx = entrants[t];
        assert(entrants@.take(t + 1).drop_last() =~= entrants@.take(t as int));
        assert(pop[idx as int] == population@[idx as int]@);
        assert(pop[best_parent as int] == population@[best_parent as int]@);
        if population[idx].fitness > population[best_parent].fitness {
            best_parent = idx;
        }
    }
    assert(entrants@.take(3) =~= entrants@);
    best_parent
}

/// Draws three tournament entrants.
fn draw_entrants(rng: &mut ThreadRng) -> (entrants: [usize; 3])
    ensures
        forall|k: int| 0 <= k < 3 ==> #[trigger] entrants@[k] < POPULATION_SIZE,
{
    let a = random_in(rng, 0, POPULATION_SIZE as i64) as usize;
    let b = random_in(rng, 0, POPULATION_SIZE as i64) as usize;
    let c = random_in(rng, 0, POPULATION_SIZE as i64) as usize;
    [a, b, c]
}

/// Draws what breeds one child: the first tournament; with probability
/// 3/10 a second tournament and a cut; then for each instruction, with
/// probability 1/10, a random replacement.
fn draw_child(rng: &mut ThreadRng) -> (d: ChildDraws)
    ensures
        child_draws_ok(d),
{
    let first = draw_entrants(rng);
    let crosses = random_ratio(rng, 3, 10);
    let (second, cut) = if crosses {
        let second = draw_entrants(rng);
        let cut = random_in(rng, 0, SEQUENCE_LENGTH as i64) as usize;
        (second, cut)
    } else {
        ([0usize, 0usize, 0usize], 0usize)
    };
    let mut mutations: Vec<Option<Opcode>> = Vec::with_capacity(SEQUENCE_LENGTH);
    for i in 0..SEQUENCE_LENGTH
        invariant
            mutations@.len() == i,
            forall|j: int|
                0 <= j < i ==> (#[trigger] mutations@[j] matches Some(op) ==> is_random_shape(op)
                    && is_drawn_opcode(op)),
    {
        if random_ratio(rng, 1, 10) {
            let op = random_opcode(rng);
            mutations.push(Some(op));
        } else {
            mutations.push(None);
        }
    }
    ChildDraws { first, crosses, second, cut, mutations }
}

/// Breeds the child that the draws `draws` stand for: a copy of the first
/// tournament's winner, crossed over with the second's from the cut on when
/// the draws say so, with the drawn replacements applied.
pub fn breed_child(population: &Vec<Genotype>, draws: &ChildDraws) -> (child: Genotype)
    requires
        is_breedable(population_view(population@)),
        child_draws_ok(*draws),
    ensures
        child@ == child_of(population_view(population@), *draws),
{
    let ghost pop = population_view(population@);
    let w1 = tournament(population, &draws.first);
    let mut child = population[w1].duplicate();
    assert(pop[w1 as int] == population@[w1 as int]@);
    assert(pop[w1 as int].sequence.len() >= SEQUENCE_LENGTH);
    if draws.crosses {
        let w2 = tournament(population, &draws.second);
        assert(pop[w2 as int] == population@[w2 as int]@);
        assert(pop[w2 as int].sequence.len() >= SEQUENCE_LENGTH);
        let ghost before = child@;
        for i in draws.cut..SEQUENCE_LENGTH
            invariant
                pop == population_view(population@),
                w2 < population@.len(),
                pop[w2 as int] == population@[w2 as int]@,
                population@[w2 as int].sequence@.len() >= SEQUENCE_LENGTH,
                child@.fitness == before.fitness,
                child@.sequence.len() == before.sequence.len(),
                before.sequence.len() >= SEQUENCE_LENGTH,
                forall|j: int|
                    0 <= j < child@.sequence.len() ==> #[trigger] child@.sequence[j] == if draws.cut
                        <= j < i {
                        population@[w2 as int].sequence@[j]
                    } else {
                        before.sequence[j]
                    },
        {
            let op = population[w2].sequence[i];
            child.sequence.set(i, op);
        }
    }
    let ghost crossed = child@;
    assert(crossed.sequence =~= crossed_of(pop, *draws));
    for i in 0..SEQUENCE_LENGTH
        invariant
            child_draws_ok(*draws),
            child@.fitness == crossed.fitness,
            child@.sequence.len() == crossed.sequence.len(),
            crossed.sequence.len() >= SEQUENCE_LENGTH,
            forall|j: int|
                0 <= j < child@.sequence.len() ==> #[trigger] child@.sequence[j] == if j < i
                    && draws.mutations@[j] is Some {
                    draws.mutations@[j]->0
                } else {
                    crossed.sequence[j]
                },
    {
        match draws.mutations[i] {
            Some(op) => {
                child.sequence.set(i, op);
            },
            None => {},
        }
    }
    assert(child@.sequence =~= child_of(pop, *draws).sequence);
    child
}

/// A bred child inherits from the tournament winners: from the first alone
/// when the draws do not cross over.
proof fn lemma_child_inherits(population: Seq<GenotypeView>, d: ChildDraws)
    requires
        is_breedable(population),
        child_draws_ok(d),
    ensures
        ({
            let w1 = tournament_winner(population, d.first@);
            let w2 = if d.crosses { tournament_winner(population, d.second@) } else { w1 };
            let cut = if d.crosses { d.cut as int } else { SEQUENCE_LENGTH as int };
            &&& inherits(child_of(population, d), population[w1], population[w2], cut)
            &&& is_offspring(child_of(population, d), population)
            &&& sorted_by_fitness(population) ==> inherits(
                child_of(population, d),
                population[0],
                population[0],
                SEQUENCE_LENGTH as int,
            )
        }),
{
    lemma_tournament_winner(population, d.first@);
    lemma_tournament_winner(population, d.second@);
    let w1 = tournament_winner(population, d.first@);
    let w2 = if d.crosses { tournament_winner(population, d.second@) } else { w1 };
    let cut = if d.crosses { d.cut as int } else { SEQUENCE_LENGTH as int };
    let child = child_of(population, d);
    assert(population[w1].sequence.len() >= SEQUENCE_LENGTH);
    assert(population[w2].sequence.len() >= SEQUENCE_LENGTH);
    assert forall|i: int| 0 <= i < child.sequence.len() implies {
        ||| #[trigger] child.sequence[i] == if cut <= i < SEQUENCE_LENGTH {
            population[w2].sequence[i]
        } else {
            population[w1].sequence[i]
        }
        ||| i < SEQUENCE_LENGTH && is_random_shape(child.sequence[i])
    } by {
        if i < SEQUENCE_LENGTH && d.mutations@[i] is Some {
            assert(d.mutations@[i] matches Some(op) ==> is_random_shape(op));
        }
    }
    assert(inherits(child, population[w1], population[w2], cut));
}

impl EvolutionaryEngine {
    /// Whether the population can be bred: at least `POPULATION_SIZE`
    /// genotypes of at least `SEQUENCE_LENGTH` instructions each.
    pub fn can_breed(&self) -> (b: bool)
        ensures
            b == is_breedable(population_view(self.population@)),
    {
        if self.population.len() < POPULATION_SIZE {
            return false;
        }
        let n = self.population.len();
        for i in 0..n
            invariant
                n == self.population@.len(),
                forall|j: int|
                    0 <= j < i ==> #[trigger] population_view(self.population@)[j].sequence.len()
                        >= SEQUENCE_LENGTH,
        {
            if self.population[i].sequence.len() < SEQUENCE_LENGTH {
                assert(population_view(self.population@)[i as int].sequence.len()
                    < SEQUENCE_LENGTH);
                return false;
            }
        }
        true
    }

    /// Sorts the population by fitness, best first, keeping genotypes of
    /// equal fitness in their order.
    pub fn rank_population(&mut self)
        ensures
            is_ranking(population_view(old(self).population@), population_view(final(self).population@)),
            final(self).mode == old(self).mode,
    {
        sort_by_fitness(&mut self.population);
    }

    /// Replaces the population by its next generation: the first
    /// `ELITE_COUNT` genotypes carried over, then children bred until the
    /// population is full. A child copies a tournament winner; with
    /// probability 3/10 its instructions from a random cut onwards are
    /// taken from a second tournament winner; then each of its first
    /// `SEQUENCE_LENGTH` instructions is replaced by a random one with
    /// probability 1/10. When the population is sorted by fitness, every
    /// tournament is won by the first genotype, so every child descends
    /// from it alone.
    pub fn breed_next_generation(&mut self)
        requires
            is_breedable(population_view(old(self).population@)),
        ensures
            is_next_generation(
                population_view(old(self).population@),
                population_view(final(self).population@),
            ),
            exists|draws: Seq<ChildDraws>|
                #[trigger] bred_with(
                    population_view(old(self).population@),
                    population_view(final(self).population@),
                    draws,
                ),
            sorted_by_fitness(population_view(old(self).population@)) ==> forall|i: int|
                ELITE_COUNT <= i < POPULATION_SIZE ==> inherits(
                    #[trigger] population_view(final(self).population@)[i],
                    old(self).population@[0]@,
                    old(self).population@[0]@,
                    SEQUENCE_LENGTH as int,
                ),
            is_breedable(population_view(final(self).population@)),
            final(self).mode == old(self).mode,
    {
        let ghost parents = population_view(self.population@);
        let ghost sorted = sorted_by_fitness(parents);
        let mut next_gen: Vec<Genotype> = Vec::with_capacity(POPULATION_SIZE);
        for i in 0..ELITE_COUNT
            invariant
                parents == population_view(self.population@),
                is_breedable(parents),
                next_gen@.len() == i,
                forall|j: int| 0 <= j < i ==> #[trigger] next_gen@[j]@ == parents[j],
        {
            next_gen.push(self.population[i].duplicate());
        }
        let mut rng = thread_rng();
        let ghost mut draws: Seq<ChildDraws> = Seq::empty();
        while next_gen.len() < POPULATION_SIZE
            invariant
                parents == population_view(self.population@),
                sorted == sorted_by_fitness(parents),
                is_breedable(parents),
                ELITE_COUNT <= next_gen@.len() <= POPULATION_SIZE,
                draws.len() + ELITE_COUNT == next_gen@.len(),
                forall|j: int| 0 <= j < ELITE_COUNT ==> #[trigger] next_gen@[j]@ == parents[j],
                forall|k: int|
                    0 <= k < draws.len() ==> child_draws_ok(#[trigger] draws[k]) && next_gen@[k
                        + ELITE_COUNT]@ == child_of(parents, draws[k]),
                forall|j: int|
                    ELITE_COUNT <= j < next_gen@.len() ==> is_offspring(
                        #[trigger] next_gen@[j]@,
                        parents,
                    ),
                sorted ==> forall|j: int|
                    ELITE_COUNT <= j < next_gen@.len() ==> inherits(
                        #[trigger] next_gen@[j]@,
                        parents[0],
                        parents[0],
                        SEQUENCE_LENGTH as int,
                    ),
            decreases POPULATION_SIZE - next_gen@.len(),
        {
            let d = draw_child(&mut rng);
            let child = breed_child(&self.population, &d);
            proof {
                lemma_child_inherits(parents, d);
            }
            next_gen.push(child);
            proof {
                draws = draws.push(d);
                assert(draws[draws.len() - 1] == d);
            }
        }
        self.population = next_gen;
        proof {
            let children = population_view(self.population@);
            assert forall|i: int| 0 <= i < children.len() implies #[trigger] children[i].sequence.len()
                >= SEQUENCE_LENGTH by {
                if i < ELITE_COUNT {
                    assert(children[i] == parents[i]);
                } else {
                    assert(is_offspring(children[i], parents));
                }
            }
            assert forall|k: int| 0 <= k < draws.len() implies child_draws_ok(#[trigger] draws[k])
                && children[k + ELITE_COUNT] == child_of(parents, draws[k]) by {
                assert(children[k + ELITE_COUNT] == self.population@[k + ELITE_COUNT]@);
            }
            assert(bred_with(parents, children, draws));
        }
    }
}

impl EvolutionaryEngine {
    /// The status of generation `generation`, judged by the fitness of the
    /// first genotype.
    pub fn generation_status(&self, generation: usize) -> (status: GenerationStatus)
        requires
            self.population@.len() > 0,
        ensures
            status == status_of(generation as int, self.population@[0].fitness, self.mode@),
    {
        let best_fitness = self.population[0].fitness;
        if generation % REPORT_INTERVAL == 0 {
            let target: i64 = if same_text(self.mode.as_str(), "logic") {
                400
            } else {
                300
            };
            if best_fitness >= target {
                GenerationStatus::Converged(best_fitness)
            } else {
                GenerationStatus::Report(best_fitness)
            }
        } else {
            GenerationStatus::Quiet
        }
    }

    /// One generation of the search, once every genotype carries its
    /// fitness: rank the population, judge the generation by its best
    /// genotype, and unless the search has converged breed the next
    /// generation from the ranked population.
    pub fn evolve_generation(&mut self, generation: usize) -> (status: GenerationStatus)
        requires
            is_breedable(population_view(old(self).population@)),
        ensures
            exists|ranked: Seq<GenotypeView>|
                {
                    &&& #[trigger] is_ranking(population_view(old(self).population@), ranked)
                    &&& status == status_of(generation as int, ranked[0].fitness, old(self).mode@)
                    &&& status is Converged ==> population_view(final(self).population@) == ranked
                    &&& !(status is Converged) ==> is_next_generation(
                        ranked,
                        population_view(final(self).population@),
                    )
                    &&& !(status is Converged) ==> exists|draws: Seq<ChildDraws>|
                        #[trigger] bred_with(ranked, population_view(final(self).population@), draws)
                    &&& !(status is Converged) ==> forall|i: int|
                        ELITE_COUNT <= i < POPULATION_SIZE ==> inherits(
                            #[trigger] population_view(final(self).population@)[i],
                            ranked[0],
                            ranked[0],
                            SEQUENCE_LENGTH as int,
                        )
                },
            is_breedable(population_view(final(self).population@)),
            final(self).mode == old(self).mode,
            scored(population_view(old(self).population@), old(self).mode@) ==> forall|i: int|
                0 <= i < old(self).population@.len() ==> mode_named(old(self).mode@).score(
                    population_view(final(self).population@)[0].sequence,
                ) >= mode_named(old(self).mode@).score(
                    #[trigger] population_view(old(self).population@)[i].sequence,
                ),
    {
        let ghost before = population_view(self.population@);
        self.rank_population();
        let ghost ranked = population_view(self.population@);
        proof {
            lemma_ranking_keeps_breedable(before, ranked);
        }
        let status = self.generation_status(generation);
        match status {
            GenerationStatus::Converged(_) => {},
            _ => {
                self.breed_next_generation();
            },
        }
        assert(is_ranking(before, ranked));
        proof {
            if scored(before, self.mode@) {
                lemma_best_program_survives(before, ranked, population_view(self.population@), self.mode@);
            }
        }
        status
    }
}

proof fn lemma_ranking_keeps_breedable(before: Seq<GenotypeView>, after: Seq<GenotypeView>)
    requires
        is_ranking(before, after),
        is_breedable(before),
    ensures
        is_breedable(after),
        sorted_by_fitness(after),
{
    let perm = choose|perm: Seq<int>| ranks_as(before, after, perm);
    assert forall|i: int| 0 <= i < after.len() implies #[trigger] after[i].sequence.len()
        >= SEQUENCE_LENGTH by {
        assert(after[i] == before[perm[i]]);
    }
}


/// On the XOR task the search stops at a report generation exactly when its
/// best genotype computes XOR on the whole truth table.
pub proof fn lemma_logic_convergence(program: Seq<Opcode>, generation: int, best: i64)
    requires
        best == logic_score(program),
        generation % (REPORT_INTERVAL as int) == 0,
    ensures
        (status_of(generation, best, "logic"@) is Converged) <==> {
            &&& xor_output(program, 0, 0) == 0
            &&& xor_output(program, 0, 1) == 1
            &&& xor_output(program, 1, 0) == 1
            &&& xor_output(program, 1, 1) == 0
        },
{
    lemma_logic_score_perfect(program);
}

/// On the doubling task the search stops at a report generation exactly
/// when its best genotype doubles 2, 5 and 10.
pub proof fn lemma_math_convergence(program: Seq<Opcode>, generation: int, best: i64)
    requires
        best == math_score(program),
        generation % (REPORT_INTERVAL as int) == 0,
    ensures
        (status_of(generation, best, "math"@) is Converged) <==> {
            &&& doubling_output(program, 2) == 4
            &&& doubling_output(program, 5) == 10
            &&& doubling_output(program, 10) == 20
        },
{
    reveal_strlit("logic");
    reveal_strlit("math");
    assert("math"@ != "logic"@) by {
        assert("math"@[0] != "logic"@[0]);
    }
    lemma_math_score_perfect(program);
}

/// Some entry of `perm` is `j`.
spec fn names_index(perm: Seq<int>, j: int) -> bool {
    exists|i: int| 0 <= i < perm.len() && #[trigger] perm[i] == j
}

/// A sequence of `n` distinct indices below `n` names every index below
/// `n`.
proof fn lemma_indices_onto(perm: Seq<int>, n: int)
    requires
        perm.len() == n,
        forall|i: int| 0 <= i < n ==> 0 <= #[trigger] perm[i] < n,
        forall|i: int, j: int| 0 <= i < j < n ==> perm[i] != perm[j],
    ensures
        forall|j: int| 0 <= j < n ==> #[trigger] names_index(perm, j),
{
    assert(perm.no_duplicates()) by {
        assert forall|i: int, j: int| 0 <= i < perm.len() && 0 <= j < perm.len() && i != j implies perm[i]
            != perm[j] by {
            if i > j {
                assert(perm[j] != perm[i]);
            }
        }
    }
    perm.unique_seq_to_set();
    vstd::set_lib::lemma_int_range(0, n);
    vstd::seq_lib::seq_to_set_is_finite(perm);
    let range = vstd::set_lib::set_int_range(0, n);
    assert(perm.to_set().subset_of(range)) by {
        assert forall|a: int| perm.to_set().contains(a) implies range.contains(a) by {
            assert(perm.contains(a));
            let i = choose|i: int| 0 <= i < perm.len() && perm[i] == a;
        }
    }
    vstd::set_lib::lemma_subset_equality(perm.to_set(), range);
    assert forall|j: int| 0 <= j < n implies #[trigger] names_index(perm, j) by {
        assert(range.contains(j));
        assert(perm.to_set().contains(j));
        assert(perm.contains(j));
    }
}

/// Every genotype of `population` carries the score `evaluate_fitness`
/// gives it, on a task whose score does not rest on chance.
pub open spec fn scored(population: Seq<GenotypeView>, mode: Seq<char>) -> bool {
    &&& mode_named(mode) != FitnessMode::FaultTolerance
    &&& forall|i: int|
        0 <= i < population.len() ==> possible_fitness(
            #[trigger] population[i].sequence,
            mode,
            population[i].fitness as int,
        )
}

/// Once every genotype of a population carries the score `evaluate_fitness`
/// gives it on a task whose score does not rest on chance, the best program
/// survives the generation: whether the search stops or breeds, the first
/// genotype afterwards scores at least as much as every genotype before.
pub proof fn lemma_best_program_survives(
    before: Seq<GenotypeView>,
    ranked: Seq<GenotypeView>,
    after: Seq<GenotypeView>,
    mode: Seq<char>,
)
    requires
        mode_named(mode) != FitnessMode::FaultTolerance,
        forall|i: int|
            0 <= i < before.len() ==> possible_fitness(
                #[trigger] before[i].sequence,
                mode,
                before[i].fitness as int,
            ),
        before.len() > 0,
        is_ranking(before, ranked),
        after == ranked || is_next_generation(ranked, after),
    ensures
        forall|i: int|
            0 <= i < before.len() ==> mode_named(mode).score(after[0].sequence) >= mode_named(
                mode,
            ).score(#[trigger] before[i].sequence),
{
    let perm = choose|perm: Seq<int>| ranks_as(before, ranked, perm);
    lemma_indices_onto(perm, before.len() as int);
    assert(after[0] == ranked[0]);
    assert(ranked[0] == before[perm[0]]);
    assert forall|i: int| 0 <= i < before.len() implies mode_named(mode).score(after[0].sequence)
        >= mode_named(mode).score(#[trigger] before[i].sequence) by {
        assert(names_index(perm, i));
        let k = choose|k: int| 0 <= k < perm.len() && #[trigger] perm[k] == i;
        assert(ranked[k] == before[i]);
        assert(ranked[0].fitness >= ranked[k].fitness);
        assert(possible_fitness(before[perm[0]].sequence, mode, before[perm[0]].fitness as int));
        assert(possible_fitness(before[i].sequence, mode, before[i].fitness as int));
    }
}

/// When a generation speaks and when the search stops: only every hundredth
/// generation says anything; then it stops once the best fitness reaches
/// 400 on the XOR task (`"logic"`) and 300 on every other task, the doubling
/// and irradiated doubling tasks included, and otherwise reports the best
/// fitness.
pub proof fn lemma_status_rules(generation: int, best: i64, mode: Seq<char>)
    ensures
        generation % 100 != 0 ==> status_of(generation, best, mode) == GenerationStatus::Quiet,
        generation % 100 == 0 && mode == "logic"@ ==> status_of(generation, best, mode) == if best
            >= 400 {
            GenerationStatus::Converged(best)
        } else {
            GenerationStatus::Report(best)
        },
        generation % 100 == 0 && mode != "logic"@ ==> status_of(generation, best, mode) == if best
            >= 300 {
            GenerationStatus::Converged(best)
        } else {
            GenerationStatus::Report(best)
        },
        generation % 100 == 0 && (mode == "math"@ || mode == "fault_tolerance"@) ==> (status_of(
            generation,
            best,
            mode,
        ) is Converged <==> best >= 300),
{
    reveal_strlit("logic");
    reveal_strlit("math");
    reveal_strlit("fault_tolerance");
    assert("math"@ != "logic"@) by {
        assert("math"@[0] != "logic"@[0]);
    }
    assert("fault_tolerance"@ != "logic"@) by {
        assert("fault_tolerance"@[0] != "logic"@[0]);
    }
}

/// On the irradiated task, fifteen trials that all doubled their input
/// score 300 and stop the search at a report generation.
pub proof fn lemma_fault_perfect_converges(results: Seq<i32>, generation: int)
    requires
        results.len() == 15,
        forall|k: int| 0 <= k < 15 ==> #[trigger] results[k] == 2 * fault_input(k),
        generation % 100 == 0,
    ensures
        fault_score(results) == 300,
        (status_of(generation, fault_score(results) as i64, "fault_tolerance"@) is Converged),
{
    lemma_fault_score_perfect(results);
    lemma_status_rules(generation, fault_score(results) as i64, "fault_tolerance"@);
}

/// A machine that starts `program` from its first instruction with the
/// registers `registers`, memory all zero, no output and no cycles spent.
pub open spec fn started(program: Seq<Opcode>, registers: Seq<i32>) -> VmState {
    VmState {
        program,
        memory: Seq::new(MEMORY_SIZE as nat, |i: int| 0u8),
        registers,
        ip: 0,
        halted: false,
        cycles: 0,
        output: Seq::empty(),
    }
}

/// What the XOR and doubling tasks run: the program, freshly loaded, with
/// the inputs in registers 0 and 1 (the XOR task) or register 0 (the
/// doubling task) and every other register, all memory and the output
/// empty, run until it halts; the result is register 0.
pub proof fn lemma_task_runs(program: Seq<Opcode>, a: i32, b: i32)
    ensures
        xor_output(program, a, b) == started(
            program,
            seq![a, b, 0i32, 0i32, 0i32, 0i32, 0i32, 0i32],
        ).run().registers[0],
        doubling_output(program, a) == started(
            program,
            seq![a, 0i32, 0i32, 0i32, 0i32, 0i32, 0i32, 0i32],
        ).run().registers[0],
{
    let l = VmState::loaded(program);
    assert(l.with_reg(0, a).with_reg(1, b) =~= started(
        program,
        seq![a, b, 0i32, 0i32, 0i32, 0i32, 0i32, 0i32],
    ));
    assert(l.with_reg(0, a) =~= started(program, seq![a, 0i32, 0i32, 0i32, 0i32, 0i32, 0i32, 0i32]));
}

/// How the XOR task scores: over the rows (0, 0) -> 0, (0, 1) -> 1,
/// (1, 0) -> 1 and (1, 1) -> 0, 100 for each right result and minus ten
/// times the distance to the expected value for each wrong one.
pub proof fn lemma_logic_score_rule(program: Seq<Opcode>)
    ensures
        ({
            let r00 = xor_output(program, 0, 0) as int;
            let r01 = xor_output(program, 0, 1) as int;
            let r10 = xor_output(program, 1, 0) as int;
            let r11 = xor_output(program, 1, 1) as int;
            logic_score(program) == (if r00 == 0 { 100 } else { -10 * (if r00 > 0 { r00 } else { -r00 }) })
                + (if r01 == 1 { 100 } else { -10 * (if r01 > 1 { r01 - 1 } else { 1 - r01 }) })
                + (if r10 == 1 { 100 } else { -10 * (if r10 > 1 { r10 - 1 } else { 1 - r10 }) })
                + (if r11 == 0 { 100 } else { -10 * (if r11 > 0 { r11 } else { -r11 }) })
        }),
{
}

/// How the doubling task scores: over the inputs 2, 5 and 10, 100 for each
/// doubled result and minus five times the distance to the double for each
/// other one.
pub proof fn lemma_math_score_rule(program: Seq<Opcode>)
    ensures
        ({
            let r2 = doubling_output(program, 2) as int;
            let r5 = doubling_output(program, 5) as int;
            let r10 = doubling_output(program, 10) as int;
            math_score(program) == (if r2 == 4 { 100 } else { -5 * (if r2 > 4 { r2 - 4 } else { 4 - r2 }) })
                + (if r5 == 10 { 100 } else { -5 * (if r5 > 10 { r5 - 10 } else { 10 - r5 }) })
                + (if r10 == 20 { 100 } else { -5 * (if r10 > 20 { r10 - 20 } else { 20 - r10 }) })
        }),
{
}

/// How the irradiated task scores: no trials score zero, and each further
/// trial adds 20 when it doubled its input and otherwise subtracts the
/// distance to the double; the first five trials have input 2, the next
/// five input 5 and the rest input 10.
pub proof fn lemma_fault_score_rule(results: Seq<i32>, r: i32)
    ensures
        fault_score(Seq::<i32>::empty()) == 0,
        ({
            let x: int = if results.len() < 5 { 2 } else if results.len() < 10 { 5 } else { 10 };
            let d = r as int - 2 * x;
            fault_score(results.push(r)) == fault_score(results) + (if d == 0 { 20 } else { -(if d > 0 { d } else { -d }) })
        }),
{
    assert(results.push(r).drop_last() =~= results);
}

} // verus!
