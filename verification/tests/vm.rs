use genesis::vm::{AstVM, BitFlips, Opcode, MAX_CYCLES, MEMORY_SIZE, NUM_REGISTERS, OUTPUT_CAPACITY};

fn run_program(program: &[Opcode]) -> AstVM {
    let mut vm = AstVM::new();
    vm.load(program);
    vm.run();
    vm
}

#[test]
fn new_machine_is_cleared() {
    let vm = AstVM::new();
    assert!(vm.program.is_empty());
    assert_eq!(vm.memory.len(), MEMORY_SIZE);
    assert!(vm.memory.iter().all(|b| *b == 0));
    assert_eq!(vm.registers, [0; NUM_REGISTERS]);
    assert_eq!(vm.ip, 0);
    assert!(!vm.halted);
    assert_eq!(vm.cycles, 0);
    assert!(vm.output_buffer.is_empty());
}

#[test]
fn empty_program_halts_without_cycles() {
    let vm = run_program(&[]);
    assert!(vm.halted);
    assert_eq!(vm.cycles, 0);
}

#[test]
fn arithmetic_and_output() {
    let vm = run_program(&[
        Opcode::Ldi(0, 5),
        Opcode::Ldi(1, 7),
        Opcode::Add(0, 1),
        Opcode::IoOut(0),
        Opcode::Hlt,
    ]);
    assert_eq!(vm.registers[0], 12);
    assert_eq!(vm.output_buffer, vec![12]);
    assert!(vm.halted);
    assert_eq!(vm.cycles, 5);
    assert_eq!(vm.ip, 5);
}

#[test]
fn running_off_the_end_halts() {
    let vm = run_program(&[Opcode::Inc(0), Opcode::Inc(0)]);
    assert_eq!(vm.registers[0], 2);
    assert!(vm.halted);
    assert_eq!(vm.cycles, 2);
}

#[test]
fn arithmetic_wraps() {
    let vm = run_program(&[Opcode::Ldi(0, i32::MAX), Opcode::Inc(0), Opcode::Ldi(1, i32::MIN), Opcode::Dec(1)]);
    assert_eq!(vm.registers[0], i32::MIN);
    assert_eq!(vm.registers[1], i32::MAX);
    let vm = run_program(&[Opcode::Ldi(0, 65536), Opcode::Mul(0, 0)]);
    assert_eq!(vm.registers[0], 0);
    let vm = run_program(&[Opcode::Ldi(0, 3), Opcode::Ldi(1, 10), Opcode::Sub(0, 1)]);
    assert_eq!(vm.registers[0], -7);
}

#[test]
fn division_rounds_toward_zero_and_skips_zero() {
    let vm = run_program(&[Opcode::Ldi(0, -7), Opcode::Ldi(1, 2), Opcode::Div(0, 1)]);
    assert_eq!(vm.registers[0], -3);
    let vm = run_program(&[Opcode::Ldi(0, 9), Opcode::Div(0, 1)]);
    assert_eq!(vm.registers[0], 9);
    let vm = run_program(&[Opcode::Ldi(0, i32::MIN), Opcode::Ldi(1, -1), Opcode::Div(0, 1)]);
    assert_eq!(vm.registers[0], i32::MIN);
}

#[test]
fn register_operands_wrap_around() {
    let vm = run_program(&[Opcode::Inc(9), Opcode::Ldi(10, 4), Opcode::Mov(3, 2)]);
    assert_eq!(vm.registers[1], 1);
    assert_eq!(vm.registers[2], 4);
    assert_eq!(vm.registers[3], 4);
}

#[test]
fn memory_addresses_wrap_and_store_low_byte() {
    let vm = run_program(&[
        Opcode::Ldi(2, -1),
        Opcode::Ldi(3, 300),
        Opcode::St(2, 3),
        Opcode::Ld(4, 2),
    ]);
    assert_eq!(vm.memory[MEMORY_SIZE - 1], 44);
    assert_eq!(vm.registers[4], 44);
    let vm = run_program(&[Opcode::Ldi(2, 1025), Opcode::Ldi(3, -2), Opcode::St(2, 3)]);
    assert_eq!(vm.memory[1], 254);
}

#[test]
fn jumps_and_conditional_jumps() {
    // r0 counts down from 3; the loop body increments r1.
    let vm = run_program(&[
        Opcode::Ldi(0, 3),
        Opcode::Jz(0, 3),
        Opcode::Dec(0),
        Opcode::Inc(1),
        Opcode::Jmp(-4),
        Opcode::Hlt,
    ]);
    assert_eq!(vm.registers[1], 3);
    assert!(vm.halted);
    let vm = run_program(&[Opcode::Jmp(5), Opcode::Inc(0)]);
    assert!(vm.halted);
    assert_eq!(vm.registers[0], 0);
    assert_eq!(vm.cycles, 1);
    let vm = run_program(&[Opcode::Ldi(0, 1), Opcode::Jz(0, -100), Opcode::Inc(0)]);
    assert_eq!(vm.registers[0], 2);
}

#[test]
fn endless_loop_stops_at_cycle_budget() {
    let vm = run_program(&[Opcode::Jmp(-1)]);
    assert!(vm.halted);
    assert_eq!(vm.cycles, MAX_CYCLES);
}

#[test]
fn output_buffer_is_capped() {
    let vm = run_program(&[Opcode::Inc(0), Opcode::IoOut(0), Opcode::Jmp(-3)]);
    assert_eq!(vm.output_buffer.len(), OUTPUT_CAPACITY);
    assert_eq!(vm.output_buffer[0], 1);
    assert_eq!(vm.output_buffer[OUTPUT_CAPACITY - 1], OUTPUT_CAPACITY as i32);
}

#[test]
fn step_on_halted_machine_changes_nothing() {
    let mut vm = run_program(&[Opcode::Inc(0), Opcode::Hlt, Opcode::Inc(0)]);
    let (ip, cycles, r0) = (vm.ip, vm.cycles, vm.registers[0]);
    vm.step();
    assert_eq!((vm.ip, vm.cycles, vm.registers[0]), (ip, cycles, r0));
    assert!(vm.halted);
    vm.run();
    assert_eq!((vm.ip, vm.cycles, vm.registers[0]), (ip, cycles, r0));
}

#[test]
fn load_resets_state() {
    let mut vm = run_program(&[Opcode::Ldi(0, 9), Opcode::St(0, 0), Opcode::IoOut(0)]);
    vm.load(&[Opcode::Nop]);
    assert_eq!(vm.program, vec![Opcode::Nop]);
    assert_eq!(vm.registers, [0; NUM_REGISTERS]);
    assert!(vm.memory.iter().all(|b| *b == 0));
    assert_eq!(vm.ip, 0);
    assert!(!vm.halted);
    assert_eq!(vm.cycles, 0);
    assert!(vm.output_buffer.is_empty());
}

#[test]
fn bit_flips_change_the_named_bits() {
    let mut vm = AstVM::new();
    vm.apply_flips(&BitFlips { register: Some((0, 31)), memory: Some((7, 3)) });
    assert_eq!(vm.registers[0], i32::MIN);
    assert_eq!(vm.memory[7], 8);
    vm.apply_flips(&BitFlips { register: Some((0, 31)), memory: None });
    assert_eq!(vm.registers[0], 0);
    assert_eq!(vm.memory[7], 8);
}

#[test]
fn radiation_with_zero_probability_is_a_plain_run() {
    let program = [Opcode::Ldi(0, 21), Opcode::Add(0, 0), Opcode::IoOut(0), Opcode::Hlt];
    let mut vm = AstVM::new();
    vm.load(&program);
    vm.run_with_radiation(0, 50);
    let plain = run_program(&program);
    assert_eq!(vm.registers, plain.registers);
    assert_eq!(vm.output_buffer, plain.output_buffer);
    assert_eq!(vm.cycles, plain.cycles);
    assert!(vm.halted);
}

#[test]
fn radiation_always_halts_and_keeps_program() {
    let program = [Opcode::Inc(0), Opcode::Jmp(-2)];
    let mut vm = AstVM::new();
    vm.load(&program);
    vm.run_with_radiation(1, 1);
    assert!(vm.halted);
    assert_eq!(vm.program, program.to_vec());
    assert!(vm.cycles <= MAX_CYCLES);
}

#[test]
fn radiation_accepts_any_ratio_and_leaves_a_halted_machine_alone() {
    let program = [Opcode::Ldi(0, 21), Opcode::Add(0, 0), Opcode::Hlt];
    let mut vm = AstVM::new();
    vm.load(&program);
    vm.run_with_radiation(0, u32::MAX);
    assert_eq!(vm.registers[0], 42);
    let memory = vm.memory;
    let registers = vm.registers;
    let cycles = vm.cycles;
    vm.run_with_radiation(u32::MAX, u32::MAX);
    assert_eq!(vm.registers, registers);
    assert_eq!(vm.memory, memory);
    assert_eq!(vm.cycles, cycles);
    assert!(vm.halted);
}
