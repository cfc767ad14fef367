//! The register machine: opcodes, machine state, and single-step semantics.

use vstd::prelude::*;
use rand::rngs::ThreadRng;
use crate::random::{random_in, random_ratio, thread_rng};

verus! {

broadcast use vstd::array::group_array_axioms;

/// Number of bytes of data memory.
pub const MEMORY_SIZE: usize = 1024;
/// Number of instructions a machine executes before it is forced to halt.
pub const MAX_CYCLES: usize = 10_000;
/// Number of general purpose registers.
pub const NUM_REGISTERS: usize = 8;
/// Number of values the output buffer can hold.
pub const OUTPUT_CAPACITY: usize = 64;

/// One machine instruction. Register operands are reduced modulo
/// `NUM_REGISTERS` when executed.
#[derive(Clone, Copy, Debug, PartialEq, Eq, Structural)]
pub enum Opcode {
    Nop,
    Inc(u8),
    Dec(u8),
    Add(u8, u8),
    Sub(u8, u8),
    Mul(u8, u8),
    Div(u8, u8),
    Mov(u8, u8),
    Ldi(u8, i32),
    Jmp(i32),
    Jz(u8, i32),
    IoOut(u8),
    Ld(u8, u8),
    St(u8, u8),
    Hlt,
}

/// The machine: a program, byte memory, registers and an output buffer.
pub struct AstVM {
    pub program: Vec<Opcode>,
    pub memory: [u8; MEMORY_SIZE],
    pub registers: [i32; NUM_REGISTERS],
    pub ip: usize,
    pub halted: bool,
    pub cycles: usize,
    pub output_buffer: Vec<i32>,
}

/// Mathematical model of a machine state.
#[verifier::ext_equal]
pub struct VmState {
    pub program: Seq<Opcode>,
    pub memory: Seq<u8>,
    pub registers: Seq<i32>,
    pub ip: int,
    pub halted: bool,
    pub cycles: int,
    pub output: Seq<i32>,
}

impl View for AstVM {
    type V = VmState;

    open spec fn view(&self) -> VmState {
        VmState {
            program: self.program@,
            memory: self.memory@,
            registers: self.registers@,
            ip: self.ip as int,
            halted: self.halted,
            cycles: self.cycles as int,
            output: self.output_buffer@,
        }
    }
}

impl VmState {
    /// The register file and the memory have their fixed sizes, as they
    /// always do for the state of an `AstVM`.
    pub open spec fn wf(self) -> bool {
        self.registers.len() == NUM_REGISTERS && self.memory.len() == MEMORY_SIZE
    }

    /// The state of a machine that has just been loaded with `program`.
    pub open spec fn loaded(program: Seq<Opcode>) -> VmState {
        VmState {
            program,
            memory: Seq::new(MEMORY_SIZE as nat, |i: int| 0u8),
            registers: Seq::new(NUM_REGISTERS as nat, |i: int| 0i32),
            ip: 0,
            halted: false,
            cycles: 0,
            output: Seq::empty(),
        }
    }
}


/// The register an operand names: operands are taken modulo `NUM_REGISTERS`.
pub open spec fn reg_slot(r: u8) -> int {
    (r as int) % (NUM_REGISTERS as int)
}

/// The memory cell a register value addresses: the value modulo
/// `MEMORY_SIZE`, taken in `0..MEMORY_SIZE` also for negative values.
pub open spec fn mem_slot(v: i32) -> int {
    (v as int) % (MEMORY_SIZE as int)
}

/// The low eight bits of a value, as stored by `St`.
pub open spec fn low_byte(v: i32) -> u8 {
    ((v as int) % 256) as u8
}

/// Integer division rounding toward zero.
pub open spec fn trunc_div(a: int, b: int) -> int {
    let q = abs(a) / abs(b);
    if (a < 0) != (b < 0) { -q } else { q }
}

pub open spec fn abs(a: int) -> int {
    if a < 0 { -a } else { a }
}

/// Two's complement division: rounds toward zero, and `i32::MIN / -1`
/// wraps to `i32::MIN`.
pub open spec fn wrapping_div(a: i32, b: i32) -> i32 {
    if a == i32::MIN && b == -1 {
        i32::MIN
    } else {
        trunc_div(a as int, b as int) as i32
    }
}

/// The instruction index a relative jump by `offset` from `ip` lands on,
/// computed in wrapping 32-bit arithmetic.
pub open spec fn jump_target(ip: int, offset: i32) -> i32 {
    vstd::wrapping::i32_specs::wrapping_add(ip as i32, offset)
}

impl VmState {
    pub open spec fn with_reg(self, slot: int, v: i32) -> VmState {
        VmState { registers: self.registers.update(slot, v), ..self }
    }

    pub open spec fn reg(self, r: u8) -> i32 {
        self.registers[reg_slot(r)]
    }

    /// Transfers control to `ip + offset`, or halts when that is outside
    /// the program.
    pub open spec fn jump(self, offset: i32) -> VmState {
        let t = jump_target(self.ip, offset);
        if 0 <= t && t < (self.program.len() as i32) {
            VmState { ip: t as int, ..self }
        } else {
            VmState { halted: true, ..self }
        }
    }

    /// The effect of `op` on a state whose instruction pointer and cycle
    /// counter have already been advanced past it.
    pub open spec fn execute(self, op: Opcode) -> VmState {
        match op {
            Opcode::Nop => self,
            Opcode::Inc(r) => self.with_reg(reg_slot(r), self.reg(r).wrapping_add(1)),
            Opcode::Dec(r) => self.with_reg(reg_slot(r), self.reg(r).wrapping_sub(1)),
            Opcode::Add(d, s) => self.with_reg(reg_slot(d), self.reg(d).wrapping_add(self.reg(s))),
            Opcode::Sub(d, s) => self.with_reg(reg_slot(d), self.reg(d).wrapping_sub(self.reg(s))),
            Opcode::Mul(d, s) => self.with_reg(reg_slot(d), self.reg(d).wrapping_mul(self.reg(s))),
            Opcode::Div(d, s) => if self.reg(s) != 0 {
                self.with_reg(reg_slot(d), wrapping_div(self.reg(d), self.reg(s)))
            } else {
                self
            },
            Opcode::Mov(d, s) => self.with_reg(reg_slot(d), self.reg(s)),
            Opcode::Ldi(d, imm) => self.with_reg(reg_slot(d), imm),
            Opcode::Jmp(offset) => self.jump(offset),
            Opcode::Jz(r, offset) => if self.reg(r) == 0 { self.jump(offset) } else { self },
            Opcode::IoOut(r) => if self.output.len() < OUTPUT_CAPACITY {
                VmState { output: self.output.push(self.reg(r)), ..self }
            } else {
                self
            },
            Opcode::Ld(d, a) => self.with_reg(reg_slot(d), self.memory[mem_slot(self.reg(a))] as i32),
            Opcode::St(a, s) => VmState {
                memory: self.memory.update(mem_slot(self.reg(a)), low_byte(self.reg(s))),
                ..self
            },
            Opcode::Hlt => VmState { halted: true, ..self },
        }
    }

    /// One machine step: a halted machine, one whose instruction pointer is
    /// past the program, or one that has used up its cycle budget halts;
    /// otherwise the current instruction is fetched and executed.
    pub open spec fn step(self) -> VmState {
        if self.halted || self.ip >= self.program.len() || self.cycles >= MAX_CYCLES {
            VmState { halted: true, ..self }
        } else {
            VmState { ip: self.ip + 1, cycles: self.cycles + 1, ..self }.execute(
                self.program[self.ip],
            )
        }
    }
    /// A measure that every step of a running machine decreases.
    pub open spec fn fuel(self) -> nat {
        if self.halted {
            0
        } else if self.cycles < MAX_CYCLES {
            (MAX_CYCLES - self.cycles + 1) as nat
        } else {
            1
        }
    }

    /// The state a machine reaches when stepped until it halts.
    pub open spec fn run(self) -> VmState
        decreases self.fuel(),
    {
        if self.halted {
            self
        } else {
            self.step().run()
        }
    }

    /// The state after the bit flips of `flips` strike the machine.
    pub open spec fn irradiate(self, flips: BitFlips) -> VmState {
        let s = match flips.register {
            Some((r, bit)) => self.with_reg(r as int, self.registers[r as int] ^ (1i32 << bit)),
            None => self,
        };
        match flips.memory {
            Some((a, bit)) => VmState {
                memory: s.memory.update(a as int, s.memory[a as int] ^ (1u8 << bit)),
                ..s
            },
            None => s,
        }
    }

    /// The state reached when each step is preceded by the flips of the
    /// corresponding entry of `history`.
    pub open spec fn run_irradiated(self, history: Seq<BitFlips>) -> VmState
        decreases history.len(),
    {
        if history.len() == 0 {
            self
        } else {
            self.irradiate(history[0]).step().run_irradiated(history.drop_first())
        }
    }
}

/// Bit flips that strike a machine before one of its steps: at most one
/// register bit and at most one memory bit.
pub struct BitFlips {
    /// A register index and a bit position in it.
    pub register: Option<(usize, u32)>,
    /// A memory address and a bit position in that byte.
    pub memory: Option<(usize, u32)>,
}

impl BitFlips {
    /// The flips address an existing register bit and an existing memory bit.
    pub open spec fn in_range(self) -> bool {
        &&& (self.register matches Some((r, bit)) ==> r < NUM_REGISTERS && bit < 32)
        &&& (self.memory matches Some((a, bit)) ==> a < MEMORY_SIZE && bit < 8)
    }
}


/// Draws the bit flips that precede one step of an irradiated machine: none
/// when the numerator is zero, and certainly a register flip when it equals
/// the denominator.
fn draw_flips(rng: &mut ThreadRng, numerator: u32, denominator: u32) -> (flips: BitFlips)
    requires
        0 < denominator,
        numerator <= denominator,
    ensures
        flips.in_range(),
        numerator == 0 ==> flips.register is None && flips.memory is None,
        numerator == denominator ==> flips.register is Some,
{
    let register = if random_ratio(rng, numerator, denominator) {
        let r = random_in(rng, 0, NUM_REGISTERS as i64) as usize;
        let bit = random_in(rng, 0, 32) as u32;
        Some((r, bit))
    } else {
        None
    };
    let memory = if random_ratio(rng, numerator, denominator) && random_ratio(rng, 1, 10) {
        let a = random_in(rng, 0, MEMORY_SIZE as i64) as usize;
        let bit = random_in(rng, 0, 8) as u32;
        Some((a, bit))
    } else {
        None
    };
    BitFlips { register, memory }
}

proof fn lemma_run_irradiated_push(s: VmState, history: Seq<BitFlips>, flips: BitFlips)
    ensures
        s.run_irradiated(history.push(flips)) == s.run_irradiated(history).irradiate(flips).step(),
    decreases history.len(),
{
    let t = s.irradiate(flips).step();
    if history.len() == 0 {
        assert(history.push(flips).drop_first() =~= Seq::<BitFlips>::empty());
        assert(t.run_irradiated(Seq::<BitFlips>::empty()) == t);
        assert(history.push(flips)[0] == flips);
    } else {
        assert(history.push(flips).drop_first() =~= history.drop_first().push(flips));
        assert(history.push(flips)[0] == history[0]);
        lemma_run_irradiated_push(s.irradiate(history[0]).step(), history.drop_first(), flips);
    }
}

/// `a / b` in wrapping 32-bit arithmetic.
fn div_wrapping(a: i32, b: i32) -> (q: i32)
    requires
        b != 0,
    ensures
        q == wrapping_div(a, b),
{
    if a == i32::MIN && b == -1 {
        i32::MIN
    } else {
        proof {
            lemma_trunc_div_fits(a, b);
        }
        match a.checked_div(b) {
            Some(q) => q,
            None => i32::MIN,
        }
    }
}

proof fn lemma_trunc_div_fits(a: i32, b: i32)
    requires
        b != 0,
        !(a == i32::MIN && b == -1),
    ensures
        i32::MIN <= trunc_div(a as int, b as int) <= i32::MAX,
{
    let x = abs(a as int);
    let y = abs(b as int);
    assert(x / y <= x) by (nonlinear_arith)
        requires x >= 0, y >= 1;
    assert(0 <= x / y) by (nonlinear_arith)
        requires x >= 0, y >= 1;
    if y == 1 {
        assert(x / 1 == x);
    } else {
        assert(x / y <= x / 2) by (nonlinear_arith)
            requires x >= 0, y >= 2;
    }
}

/// The low eight bits of `v`.
fn byte_of(v: i32) -> (b: u8)
    ensures
        b == low_byte(v),
{
    match v.checked_rem_euclid(256) {
        Some(m) => m as u8,
        None => 0,
    }
}

/// The memory cell addressed by a register value.
fn memory_address(v: i32) -> (addr: usize)
    ensures
        addr as int == mem_slot(v),
        addr < MEMORY_SIZE,
{
    match v.checked_rem_euclid(MEMORY_SIZE as i32) {
        Some(m) => m as usize,
        None => 0,
    }
}

impl AstVM {
    /// A machine with an empty program and cleared state.
    pub fn new() -> (vm: AstVM)
        ensures
            vm@ == VmState::loaded(Seq::empty()),
    {
        let vm = AstVM {
            program: Vec::new(),
            memory: [0u8; MEMORY_SIZE],
            registers: [0i32; NUM_REGISTERS],
            ip: 0,
            halted: false,
            cycles: 0,
            output_buffer: Vec::with_capacity(OUTPUT_CAPACITY),
        };
        assert(vm.memory@ =~= Seq::new(MEMORY_SIZE as nat, |i: int| 0u8));
        assert(vm.registers@ =~= Seq::new(NUM_REGISTERS as nat, |i: int| 0i32));
        vm
    }

    /// Loads `prog` and clears memory, registers, instruction pointer,
    /// halt flag, cycle counter and output.
    pub fn load(&mut self, prog: &[Opcode])
        ensures
            final(self)@ == VmState::loaded(prog@),
    {
        self.program = vstd::slice::slice_to_vec(prog);
        self.registers = [0i32; NUM_REGISTERS];
        self.memory = [0u8; MEMORY_SIZE];
        self.ip = 0;
        self.halted = false;
        self.cycles = 0;
        self.output_buffer.clear();
        proof {
            assert(self.memory@ =~= Seq::new(MEMORY_SIZE as nat, |i: int| 0u8));
            assert(self.registers@ =~= Seq::new(NUM_REGISTERS as nat, |i: int| 0i32));
            assert(self@ =~= VmState::loaded(prog@));
        }
    }

    /// Steps the machine until it halts.
    pub fn run(&mut self)
        ensures
            final(self)@ == old(self)@.run(),
    {
        while !self.halted
            invariant
                self@.run() == old(self)@.run(),
            decreases self@.fuel(),
        {
            self.step();
        }
    }

    /// Flips the register bit and the memory bit named by `flips`.
    pub fn apply_flips(&mut self, flips: &BitFlips)
        requires
            flips.in_range(),
        ensures
            final(self)@ == old(self)@.irradiate(*flips),
    {
        match flips.register {
            Some((r, bit)) => {
                self.registers[r] = self.registers[r] ^ (1i32 << bit);
            },
            None => {},
        }
        match flips.memory {
            Some((a, bit)) => {
                self.memory[a] = self.memory[a] ^ (1u8 << bit);
            },
            None => {},
        }
        proof {
            assert(self@ =~= old(self)@.irradiate(*flips));
        }
    }

    /// Steps the machine until it halts while, before each step, a random
    /// register bit is flipped with probability `numerator / denominator`
    /// and a random memory bit with a tenth of that probability.
    pub fn run_with_radiation(&mut self, numerator: u32, denominator: u32)
        requires
            0 < denominator,
            numerator <= denominator,
        ensures
            final(self)@.halted,
            exists|history: Seq<BitFlips>|
                {
                    &&& forall|i: int| 0 <= i < history.len() ==> #[trigger] history[i].in_range()
                    &&& final(self)@ == old(self)@.run_irradiated(history)
                },
            numerator == 0 ==> final(self)@ == old(self)@.run(),
            old(self)@.halted ==> final(self)@ == old(self)@,
    {
        let mut rng = thread_rng();
        let ghost mut history: Seq<BitFlips> = Seq::empty();
        while !self.halted
            invariant
                0 < denominator,
                numerator <= denominator,
                forall|i: int| 0 <= i < history.len() ==> #[trigger] history[i].in_range(),
                self@ == old(self)@.run_irradiated(history),
                numerator == 0 ==> self@.run() == old(self)@.run(),
                old(self)@.halted ==> self@ == old(self)@,
            decreases self@.fuel(),
        {
            let flips = draw_flips(&mut rng, numerator, denominator);
            let ghost before = self@;
            self.apply_flips(&flips);
            self.step();
            proof {
                lemma_run_irradiated_push(old(self)@, history, flips);
                history = history.push(flips);
                if numerator == 0 {
                    assert(before.irradiate(flips) =~= before);
                }
            }
        }
    }

    /// Executes one instruction.
    pub fn step(&mut self)
        ensures
            final(self)@ == old(self)@.step(),
    {
        if self.halted || self.ip >= self.program.len() {
            self.halted = true;
            return;
        }
        if self.cycles >= MAX_CYCLES {
            self.halted = true;
            return;
        }
        let instr = self.program[self.ip];
        self.ip += 1;
        self.cycles += 1;
        match instr {
            Opcode::Nop => {},
            Opcode::Inc(r) => {
                let r = (r as usize) % NUM_REGISTERS;
                self.registers[r] = self.registers[r].wrapping_add(1);
            },
            Opcode::Dec(r) => {
                let r = (r as usize) % NUM_REGISTERS;
                self.registers[r] = self.registers[r].wrapping_sub(1);
            },
            Opcode::Add(d, s) => {
                let d = (d as usize) % NUM_REGISTERS;
                let s = (s as usize) % NUM_REGISTERS;
                self.registers[d] = self.registers[d].wrapping_add(self.registers[s]);
            },
            Opcode::Sub(d, s) => {
                let d = (d as usize) % NUM_REGISTERS;
                let s = (s as usize) % NUM_REGISTERS;
                self.registers[d] = self.registers[d].wrapping_sub(self.registers[s]);
            },
            Opcode::Mul(d, s) => {
                let d = (d as usize) % NUM_REGISTERS;
                let s = (s as usize) % NUM_REGISTERS;
                self.registers[d] = self.registers[d].wrapping_mul(self.registers[s]);
            },
            Opcode::Div(d, s) => {
                let d = (d as usize) % NUM_REGISTERS;
                let s = (s as usize) % NUM_REGISTERS;
                if self.registers[s] != 0 {
                    self.registers[d] = div_wrapping(self.registers[d], self.registers[s]);
                }
            },
            Opcode::Mov(d, s) => {
                let d = (d as usize) % NUM_REGISTERS;
                let s = (s as usize) % NUM_REGISTERS;
                self.registers[d] = self.registers[s];
            },
            Opcode::Ldi(d, imm) => {
                let d = (d as usize) % NUM_REGISTERS;
                self.registers[d] = imm;
            },
            Opcode::Jmp(offset) => {
                self.jump(offset);
            },
            Opcode::Jz(r, offset) => {
                let r = (r as usize) % NUM_REGISTERS;
                if self.registers[r] == 0 {
                    self.jump(offset);
                }
            },
            Opcode::IoOut(r) => {
                let r = (r as usize) % NUM_REGISTERS;
                if self.output_buffer.len() < OUTPUT_CAPACITY {
                    self.output_buffer.push(self.registers[r]);
                }
            },
            Opcode::Ld(d, a) => {
                let d = (d as usize) % NUM_REGISTERS;
                let a = (a as usize) % NUM_REGISTERS;
                let addr = memory_address(self.registers[a]);
                self.registers[d] = self.memory[addr] as i32;
            },
            Opcode::St(a, s) => {
                let a = (a as usize) % NUM_REGISTERS;
                let s = (s as usize) % NUM_REGISTERS;
                let addr = memory_address(self.registers[a]);
                self.memory[addr] = byte_of(self.registers[s]);
            },
            Opcode::Hlt => {
                self.halted = true;
            },
        }
        proof {
            assert(self@ =~= old(self)@.step());
        }
    }

    /// Relative jump from the current instruction pointer.
    fn jump(&mut self, offset: i32)
        ensures
            final(self)@ == old(self)@.jump(offset),
    {
        let next_ip = (self.ip as i32).wrapping_add(offset);
        if next_ip >= 0 && next_ip < self.program.len() as i32 {
            self.ip = next_ip as usize;
        } else {
            self.halted = true;
        }
    }
}

} // verus!

verus! {

/// Facts that hold of every single step; the laws about whole runs follow
/// from them by induction.
proof fn lemma_step_frame(s: VmState)
    requires
        s.wf(),
    ensures
        s.step().program == s.program,
        s.step().wf(),
        s.step().registers.len() == s.registers.len(),
        s.step().memory.len() == s.memory.len(),
        s.output.is_prefix_of(s.step().output),
        s.step().output.len() <= if s.output.len() <= OUTPUT_CAPACITY {
            OUTPUT_CAPACITY as int
        } else {
            s.output.len() as int
        },
        s.step().cycles == s.cycles || (s.step().cycles == s.cycles + 1 && s.cycles
            < MAX_CYCLES),
{
    let t = s.step();
    assert(s.output.is_prefix_of(t.output)) by {
        assert forall|i: int| 0 <= i < s.output.len() implies s.output[i] == t.output[i] by {}
    }
}

/// A halted machine stays as it is when stepped.
pub proof fn lemma_halted_step_is_identity(s: VmState)
    requires
        s.halted,
    ensures
        s.step() == s,
{
    assert(s.step() =~= s);
}

/// Running a machine always ends with the machine halted, and running a
/// halted machine changes nothing: `run` is idempotent.
pub proof fn lemma_run_halts(s: VmState)
    ensures
        s.run().halted,
        s.run().run() == s.run(),
    decreases s.fuel(),
{
    if !s.halted {
        lemma_run_halts(s.step());
    }
}

/// A run never changes the program, keeps the sizes of memory and register
/// file, only appends to the output, never grows the output beyond
/// `OUTPUT_CAPACITY` values, and never runs past the cycle budget.
pub proof fn lemma_run_frame(s: VmState)
    requires
        s.wf(),
    ensures
        s.run().program == s.program,
        s.run().wf(),
        s.run().registers.len() == s.registers.len(),
        s.run().memory.len() == s.memory.len(),
        s.output.is_prefix_of(s.run().output),
        s.output.len() <= OUTPUT_CAPACITY ==> s.run().output.len() <= OUTPUT_CAPACITY,
        s.cycles <= s.run().cycles,
        s.cycles <= MAX_CYCLES ==> s.run().cycles <= MAX_CYCLES,
    decreases s.fuel(),
{
    if !s.halted {
        let t = s.step();
        lemma_step_frame(s);
        lemma_run_frame(t);
        assert(s.output.is_prefix_of(t.run().output)) by {
            assert forall|i: int| 0 <= i < s.output.len() implies s.output[i]
                == t.run().output[i] by {
                assert(s.output[i] == t.output[i]);
            }
        }
    }
}

/// A freshly loaded program halts within `MAX_CYCLES` instructions, with
/// at most `OUTPUT_CAPACITY` values of output and its program untouched.
pub proof fn lemma_loaded_run_bounded(program: Seq<Opcode>)
    ensures
        VmState::loaded(program).run().halted,
        VmState::loaded(program).run().cycles <= MAX_CYCLES,
        VmState::loaded(program).run().output.len() <= OUTPUT_CAPACITY,
        VmState::loaded(program).run().program == program,
{
    lemma_run_halts(VmState::loaded(program));
    lemma_run_frame(VmState::loaded(program));
}

/// `t` is `s` with the instruction pointer advanced past the current
/// instruction and nothing else changed, except register `k`.
pub open spec fn moved_on_except_register(s: VmState, t: VmState, k: int) -> bool {
    &&& t.program == s.program
    &&& t.registers.len() == NUM_REGISTERS
    &&& forall|j: int| 0 <= j < NUM_REGISTERS && j != k ==> #[trigger] t.registers[j] == s.registers[j]
    &&& t.memory == s.memory
    &&& t.output == s.output
    &&& t.ip == s.ip + 1
    &&& t.cycles == s.cycles + 1
    &&& !t.halted
}

/// What one step of a running machine does with each instruction, stated
/// on registers, memory, output and instruction pointer. Register operands
/// name register `operand % 8`; memory operands address byte
/// `value mod 1024`; arithmetic wraps around in 32 bits; division rounds
/// toward zero and leaves the destination alone when dividing by zero; a
/// jump lands `offset` instructions after the next one, or halts the machine
/// when that is outside the program; output is kept up to 64 values.
pub proof fn lemma_step_semantics(s: VmState)
    requires
        s.wf(),
        !s.halted,
        0 <= s.ip < s.program.len(),
        s.cycles < MAX_CYCLES,
        s.program.len() < i32::MAX,
    ensures
        ({
            let t = s.step();
            let r = |k: u8| s.registers[(k as int) % 8];
            &&& s.program[s.ip] is Nop ==> moved_on_except_register(s, t, -1)
            &&& s.program[s.ip] matches Opcode::Inc(k) ==> moved_on_except_register(s, t, (k as int) % 8)
                && t.registers[(k as int) % 8] == r(k).wrapping_add(1)
            &&& s.program[s.ip] matches Opcode::Dec(k) ==> moved_on_except_register(s, t, (k as int) % 8)
                && t.registers[(k as int) % 8] == r(k).wrapping_sub(1)
            &&& s.program[s.ip] matches Opcode::Add(d, x) ==> moved_on_except_register(s, t, (d as int) % 8)
                && t.registers[(d as int) % 8] == r(d).wrapping_add(r(x))
            &&& s.program[s.ip] matches Opcode::Sub(d, x) ==> moved_on_except_register(s, t, (d as int) % 8)
                && t.registers[(d as int) % 8] == r(d).wrapping_sub(r(x))
            &&& s.program[s.ip] matches Opcode::Mul(d, x) ==> moved_on_except_register(s, t, (d as int) % 8)
                && t.registers[(d as int) % 8] == r(d).wrapping_mul(r(x))
            &&& s.program[s.ip] matches Opcode::Div(d, x) ==> moved_on_except_register(s, t, (d as int) % 8)
                && {
                let a = r(d) as int;
                let b = r(x) as int;
                let q = t.registers[(d as int) % 8] as int;
                &&& b == 0 ==> q == a
                &&& (a == i32::MIN && b == -1) ==> q == i32::MIN
                &&& (b != 0 && !(a == i32::MIN && b == -1)) ==> {
                    &&& a >= 0 && b > 0 ==> q == a / b
                    &&& a >= 0 && b < 0 ==> q == -(a / (-b))
                    &&& a < 0 && b > 0 ==> q == -((-a) / b)
                    &&& a < 0 && b < 0 ==> q == (-a) / (-b)
                }
            }
            &&& s.program[s.ip] matches Opcode::Mov(d, x) ==> moved_on_except_register(s, t, (d as int) % 8)
                && t.registers[(d as int) % 8] == r(x)
            &&& s.program[s.ip] matches Opcode::Ldi(d, imm) ==> moved_on_except_register(s, t, (d as int) % 8)
                && t.registers[(d as int) % 8] == imm
            &&& s.program[s.ip] matches Opcode::Jmp(off) ==> {
                let n = ((s.ip + 1) as i32).wrapping_add(off) as int;
                &&& t.registers == s.registers
                &&& t.memory == s.memory
                &&& t.output == s.output
                &&& t.cycles == s.cycles + 1
                &&& 0 <= n < s.program.len() ==> t.ip == n && !t.halted
                &&& !(0 <= n < s.program.len()) ==> t.halted
            }
            &&& s.program[s.ip] matches Opcode::Jz(k, off) ==> {
                let n = ((s.ip + 1) as i32).wrapping_add(off) as int;
                &&& t.registers == s.registers
                &&& t.memory == s.memory
                &&& t.output == s.output
                &&& t.cycles == s.cycles + 1
                &&& r(k) != 0 ==> t.ip == s.ip + 1 && !t.halted
                &&& r(k) == 0 && 0 <= n < s.program.len() ==> t.ip == n && !t.halted
                &&& r(k) == 0 && !(0 <= n < s.program.len()) ==> t.halted
            }
            &&& s.program[s.ip] matches Opcode::IoOut(k) ==> {
                &&& t.registers == s.registers
                &&& t.memory == s.memory
                &&& t.ip == s.ip + 1
                &&& !t.halted
                &&& s.output.len() < 64 ==> t.output == s.output.push(r(k))
                &&& s.output.len() >= 64 ==> t.output == s.output
            }
            &&& s.program[s.ip] matches Opcode::Ld(d, a) ==> moved_on_except_register(s, t, (d as int) % 8)
                && t.registers[(d as int) % 8] == s.memory[(r(a) as int) % 1024] as i32
            &&& s.program[s.ip] matches Opcode::St(a, x) ==> {
                &&& t.registers == s.registers
                &&& t.memory == s.memory.update((r(a) as int) % 1024, ((r(x) as int) % 256) as u8)
                &&& t.output == s.output
                &&& t.ip == s.ip + 1
                &&& !t.halted
            }
            &&& s.program[s.ip] is Hlt ==> t.halted && t.registers == s.registers && t.memory
                == s.memory && t.output == s.output
        }),
{
    let t = s.step();
    let op = s.program[s.ip];
    match op {
        Opcode::Div(d, x) => {
            let a = s.registers[(d as int) % 8] as int;
            let b = s.registers[(x as int) % 8] as int;
            if b != 0 && !(a == i32::MIN && b == -1) {
                lemma_trunc_div_fits(a as i32, b as i32);
            }
        },
        _ => {},
    }
}

/// A machine that is halted, has run past its program, or has used up its
/// cycle budget halts when stepped, with registers, memory, output and
/// instruction pointer unchanged.
pub proof fn lemma_step_stops(s: VmState)
    requires
        s.halted || s.ip >= s.program.len() || s.cycles >= MAX_CYCLES,
    ensures
        s.step().halted,
        s.step().registers == s.registers,
        s.step().memory == s.memory,
        s.step().output == s.output,
        s.step().ip == s.ip,
        s.step().cycles == s.cycles,
{
}

} // verus!
