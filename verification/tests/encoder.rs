use genesis::encoder::{decode, encode};
use genesis::vm::Opcode;

#[test]
fn encode_writes_four_upper_case_digits_per_instruction() {
    let program = [
        Opcode::Nop,
        Opcode::Inc(3),
        Opcode::Add(1, 2),
        Opcode::Ldi(2, -1),
        Opcode::Jmp(-2),
        Opcode::Jz(1, 3),
        Opcode::IoOut(255),
        Opcode::St(10, 11),
        Opcode::Hlt,
    ];
    assert_eq!(encode(&program), "000001030312082F09FE0A130BFF0DAB0E00");
}

#[test]
fn encode_of_empty_program_is_empty() {
    assert_eq!(encode(&[]), "");
}

#[test]
fn decode_reads_what_encode_writes() {
    let program = vec![
        Opcode::Nop,
        Opcode::Inc(200),
        Opcode::Dec(7),
        Opcode::Sub(15, 0),
        Opcode::Mul(3, 4),
        Opcode::Div(5, 6),
        Opcode::Mov(7, 1),
        Opcode::Ldi(2, 9),
        Opcode::Jmp(-128),
        Opcode::Jmp(127),
        Opcode::Jz(4, 15),
        Opcode::IoOut(1),
        Opcode::Ld(2, 3),
        Opcode::St(3, 2),
        Opcode::Hlt,
    ];
    assert_eq!(decode(&encode(&program)), program);
}

#[test]
fn decode_normalises_operands_that_do_not_fit() {
    let program = [Opcode::Ldi(2, -1), Opcode::Add(17, 2), Opcode::Jmp(300), Opcode::Jz(1, -3)];
    let decoded = decode(&encode(&program));
    assert_eq!(
        decoded,
        vec![Opcode::Ldi(2, 15), Opcode::Add(1, 2), Opcode::Jmp(44), Opcode::Jz(1, 13)]
    );
    // Encoding the decoded program again gives the same text.
    assert_eq!(encode(&decoded), encode(&program));
}

#[test]
fn decode_accepts_lower_case_and_plus_sign() {
    assert_eq!(decode("0a13"), vec![Opcode::Jz(1, 3)]);
    assert_eq!(decode("01+3"), vec![Opcode::Inc(3)]);
    assert_eq!(decode("+1+f"), vec![Opcode::Inc(15)]);
}

#[test]
fn decode_reads_bad_digits_as_zero() {
    assert_eq!(decode("ZZ05"), vec![Opcode::Nop]);
    assert_eq!(decode("01-1"), vec![Opcode::Inc(0)]);
    assert_eq!(decode("é001"), vec![Opcode::Nop]);
}

#[test]
fn decode_ignores_trailing_partial_group() {
    assert_eq!(decode("000001"), vec![Opcode::Nop]);
    assert_eq!(decode("010"), vec![]);
    assert_eq!(decode(""), vec![]);
}

#[test]
fn decode_reads_unknown_codes_as_halt() {
    assert_eq!(decode("FF00"), vec![Opcode::Hlt]);
    assert_eq!(decode("0F12"), vec![Opcode::Hlt]);
}

#[test]
fn decode_sign_extends_jump_offsets() {
    assert_eq!(decode("0980"), vec![Opcode::Jmp(-128)]);
    assert_eq!(decode("097F"), vec![Opcode::Jmp(127)]);
    assert_eq!(decode("08FF"), vec![Opcode::Ldi(15, 15)]);
}
