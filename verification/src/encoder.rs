//! The textual program format: every instruction is two bytes, written as
//! four upper-case hexadecimal digits.

use vstd::prelude::*;
use crate::vm::Opcode;

verus! {

broadcast use vstd::string::group_string_axioms;

/// The two bytes an instruction is written as: an operation code and an
/// operand byte. Two-register instructions pack the first register into the
/// high and the second into the low four bits of the operand byte; `Ldi` and
/// `Jz` pack their register and the low four bits of their immediate.
pub open spec fn encode_op(op: Opcode) -> (u8, u8) {
    match op {
        Opcode::Nop => (0x00, 0x00),
        Opcode::Inc(r) => (0x01, r),
        Opcode::Dec(r) => (0x02, r),
        Opcode::Add(d, s) => (0x03, (d << 4u8) | s),
        Opcode::Sub(d, s) => (0x04, (d << 4u8) | s),
        Opcode::Mul(d, s) => (0x05, (d << 4u8) | s),
        Opcode::Div(d, s) => (0x06, (d << 4u8) | s),
        Opcode::Mov(d, s) => (0x07, (d << 4u8) | s),
        Opcode::Ldi(d, imm) => (0x08, ((d & 0x0F) << 4u8) | ((imm as u8) & 0x0F)),
        Opcode::Jmp(offset) => (0x09, offset as u8),
        Opcode::Jz(r, offset) => (0x0A, ((r & 0x0F) << 4u8) | ((offset as u8) & 0x0F)),
        Opcode::IoOut(r) => (0x0B, r),
        Opcode::Ld(d, a) => (0x0C, (d << 4u8) | a),
        Opcode::St(a, s) => (0x0D, (a << 4u8) | s),
        Opcode::Hlt => (0x0E, 0x00),
    }
}

/// The instruction two bytes stand for. Unknown operation codes read as
/// `Hlt`; the immediate of `Ldi` and `Jz` is the low four bits of the operand
/// byte, and the offset of `Jmp` is the operand byte read as a signed byte.
pub open spec fn decode_op(op: u8, arg: u8) -> Opcode {
    if op == 0x00 {
        Opcode::Nop
    } else if op == 0x01 {
        Opcode::Inc(arg)
    } else if op == 0x02 {
        Opcode::Dec(arg)
    } else if op == 0x03 {
        Opcode::Add(arg >> 4u8, arg & 0x0F)
    } else if op == 0x04 {
        Opcode::Sub(arg >> 4u8, arg & 0x0F)
    } else if op == 0x05 {
        Opcode::Mul(arg >> 4u8, arg & 0x0F)
    } else if op == 0x06 {
        Opcode::Div(arg >> 4u8, arg & 0x0F)
    } else if op == 0x07 {
        Opcode::Mov(arg >> 4u8, arg & 0x0F)
    } else if op == 0x08 {
        Opcode::Ldi(arg >> 4u8, ((arg & 0x0F) as i8) as i32)
    } else if op == 0x09 {
        Opcode::Jmp((arg as i8) as i32)
    } else if op == 0x0A {
        Opcode::Jz(arg >> 4u8, ((arg & 0x0F) as i8) as i32)
    } else if op == 0x0B {
        Opcode::IoOut(arg)
    } else if op == 0x0C {
        Opcode::Ld(arg >> 4u8, arg & 0x0F)
    } else if op == 0x0D {
        Opcode::St(arg >> 4u8, arg & 0x0F)
    } else {
        Opcode::Hlt
    }
}

/// The upper-case hexadecimal digit of a value below 16.
pub open spec fn hex_digit(n: u8) -> char {
    if n < 10 {
        (n + 48) as char
    } else {
        (n + 55) as char
    }
}

/// The value of a hexadecimal digit of either case.
pub open spec fn hex_value(c: char) -> Option<u8> {
    let u = c as u32;
    if 48 <= u <= 57 {
        Some((u - 48) as u8)
    } else if 65 <= u <= 70 {
        Some((u - 55) as u8)
    } else if 97 <= u <= 102 {
        Some((u - 87) as u8)
    } else {
        None
    }
}

/// Base-16 reading of the two-character text `hi lo` as a byte, the way
/// `u8::from_str_radix` reads it: an optional leading `+` followed by
/// hexadecimal digits of either case.
pub open spec fn parse_hex_pair(hi: char, lo: char) -> Option<u8> {
    if hi == '+' {
        hex_value(lo)
    } else {
        match (hex_value(hi), hex_value(lo)) {
            (Some(a), Some(b)) => Some((a * 16 + b) as u8),
            _ => None,
        }
    }
}

/// The byte a pair of characters stands for; text that is not a byte in
/// base 16 stands for zero.
pub open spec fn byte_of_pair(hi: char, lo: char) -> u8 {
    match parse_hex_pair(hi, lo) {
        Some(b) => b,
        None => 0,
    }
}

/// The `j`-th of the four hexadecimal digits that encode `op`.
pub open spec fn encoded_digit(op: Opcode, j: int) -> char {
    let (a, b) = encode_op(op);
    if j == 0 {
        hex_digit(a >> 4u8)
    } else if j == 1 {
        hex_digit(a & 0x0F)
    } else if j == 2 {
        hex_digit(b >> 4u8)
    } else {
        hex_digit(b & 0x0F)
    }
}

/// The text of a program: four digits per instruction, in order.
pub open spec fn encode_spec(program: Seq<Opcode>) -> Seq<char> {
    Seq::new(4 * program.len(), |i: int| encoded_digit(program[i / 4], i % 4))
}

/// The instruction that the four characters starting at `4 * k` stand for.
pub open spec fn decoded_at(text: Seq<char>, k: int) -> Opcode {
    decode_op(
        byte_of_pair(text[4 * k], text[4 * k + 1]),
        byte_of_pair(text[4 * k + 2], text[4 * k + 3]),
    )
}

/// The program a text stands for: one instruction per complete group of
/// four characters; a trailing incomplete group is ignored.
pub open spec fn decode_spec(text: Seq<char>) -> Seq<Opcode> {
    Seq::new(text.len() / 4, |k: int| decoded_at(text, k))
}

/// Calls `String::push`: the string grows by the one character.
#[verifier::external_body]
fn push_char(s: &mut String, c: char)
    ensures
        final(s)@ == old(s)@.push(c),
{
    s.push(c);
}

fn hex_char(n: u8) -> (c: char)
    requires
        n < 16,
    ensures
        c == hex_digit(n),
{
    if n < 10 {
        (n + 48) as char
    } else {
        (n + 55) as char
    }
}

fn op_bytes(op: Opcode) -> (bytes: (u8, u8))
    ensures
        bytes == encode_op(op),
{
    match op {
        Opcode::Nop => (0x00, 0x00),
        Opcode::Inc(r) => (0x01, r),
        Opcode::Dec(r) => (0x02, r),
        Opcode::Add(d, s) => (0x03, (d << 4u8) | s),
        Opcode::Sub(d, s) => (0x04, (d << 4u8) | s),
        Opcode::Mul(d, s) => (0x05, (d << 4u8) | s),
        Opcode::Div(d, s) => (0x06, (d << 4u8) | s),
        Opcode::Mov(d, s) => (0x07, (d << 4u8) | s),
        Opcode::Ldi(d, imm) => (0x08, ((d & 0x0F) << 4u8) | ((imm as u8) & 0x0F)),
        Opcode::Jmp(offset) => (0x09, offset as u8),
        Opcode::Jz(r, offset) => (0x0A, ((r & 0x0F) << 4u8) | ((offset as u8) & 0x0F)),
        Opcode::IoOut(r) => (0x0B, r),
        Opcode::Ld(d, a) => (0x0C, (d << 4u8) | a),
        Opcode::St(a, s) => (0x0D, (a << 4u8) | s),
        Opcode::Hlt => (0x0E, 0x00),
    }
}

/// Writes a program as text, four upper-case hexadecimal digits per
/// instruction.
pub fn encode(sequence: &[Opcode]) -> (hex: String)
    ensures
        hex@ == encode_spec(sequence@),
{
    let mut hex_string = String::new();
    let n = sequence.len();
    for k in 0..n
        invariant
            n == sequence@.len(),
            hex_string@ =~= encode_spec(sequence@).take(4 * k),
    {
        let (a, b) = op_bytes(sequence[k]);
        proof {
            assert(a >> 4u8 < 16 && a & 0x0F < 16 && b >> 4u8 < 16 && b & 0x0F < 16)
                by (bit_vector);
        }
        push_char(&mut hex_string, hex_char(a >> 4u8));
        push_char(&mut hex_string, hex_char(a & 0x0F));
        push_char(&mut hex_string, hex_char(b >> 4u8));
        push_char(&mut hex_string, hex_char(b & 0x0F));
        proof {
            let e = encode_spec(sequence@);
            let b0 = 4 * k as int;
            assert(b0 / 4 == k && b0 % 4 == 0);
            assert((b0 + 1) / 4 == k && (b0 + 1) % 4 == 1);
            assert((b0 + 2) / 4 == k && (b0 + 2) % 4 == 2);
            assert((b0 + 3) / 4 == k && (b0 + 3) % 4 == 3);
            assert(hex_string@ =~= e.take(4 * k + 4));
        }
    }
    proof {
        assert(encode_spec(sequence@).take(4 * n) =~= encode_spec(sequence@));
    }
    hex_string
}

fn hex_val(c: char) -> (v: Option<u8>)
    ensures
        v == hex_value(c),
{
    let u = c as u32;
    if 48 <= u && u <= 57 {
        Some((u - 48) as u8)
    } else if 65 <= u && u <= 70 {
        Some((u - 55) as u8)
    } else if 97 <= u && u <= 102 {
        Some((u - 87) as u8)
    } else {
        None
    }
}

fn pair_byte(hi: char, lo: char) -> (b: u8)
    ensures
        b == byte_of_pair(hi, lo),
{
    if hi == '+' {
        match hex_val(lo) {
            Some(v) => v,
            None => 0,
        }
    } else {
        match (hex_val(hi), hex_val(lo)) {
            (Some(a), Some(b)) => a * 16 + b,
            _ => 0,
        }
    }
}

fn op_of_bytes(op: u8, arg: u8) -> (o: Opcode)
    ensures
        o == decode_op(op, arg),
{
    match op {
        0x00 => Opcode::Nop,
        0x01 => Opcode::Inc(arg),
        0x02 => Opcode::Dec(arg),
        0x03 => Opcode::Add(arg >> 4u8, arg & 0x0F),
        0x04 => Opcode::Sub(arg >> 4u8, arg & 0x0F),
        0x05 => Opcode::Mul(arg >> 4u8, arg & 0x0F),
        0x06 => Opcode::Div(arg >> 4u8, arg & 0x0F),
        0x07 => Opcode::Mov(arg >> 4u8, arg & 0x0F),
        0x08 => Opcode::Ldi(arg >> 4u8, ((arg & 0x0F) as i8) as i32),
        0x09 => Opcode::Jmp((arg as i8) as i32),
        0x0A => Opcode::Jz(arg >> 4u8, ((arg & 0x0F) as i8) as i32),
        0x0B => Opcode::IoOut(arg),
        0x0C => Opcode::Ld(arg >> 4u8, arg & 0x0F),
        0x0D => Opcode::St(arg >> 4u8, arg & 0x0F),
        _ => Opcode::Hlt,
    }
}

/// Reads a program from text: each complete group of four characters is one
/// instruction; a trailing incomplete group is ignored.
pub fn decode(hex_str: &str) -> (ops: Vec<Opcode>)
    ensures
        ops@ == decode_spec(hex_str@),
{
    let mut chars: Vec<char> = Vec::new();
    for c in it: hex_str.chars()
        invariant
            chars@ == it.seq().take(it.index()),
    {
        chars.push(c);
    }
    assert(chars@ =~= hex_str@);
    let n = chars.len();
    let mut sequence: Vec<Opcode> = Vec::new();
    let mut i: usize = 0;
    while i <= n && n - i > 3
        invariant
            n == chars@.len(),
            chars@ == hex_str@,
            i == 4 * sequence@.len(),
            i <= n,
            sequence@ =~= decode_spec(hex_str@).take(sequence@.len() as int),
        decreases n - i,
    {
        let byte1 = pair_byte(chars[i], chars[i + 1]);
        let byte2 = pair_byte(chars[i + 2], chars[i + 3]);
        sequence.push(op_of_bytes(byte1, byte2));
        i = i + 4;
    }
    assert(sequence@ =~= decode_spec(hex_str@));
    sequence
}

} // verus!

verus! {

/// The instructions whose operands fit the two-byte format: registers of
/// two-register instructions and of `Ldi` and `Jz` below 16, immediates of
/// `Ldi` and `Jz` in `0..16`, and `Jmp` offsets in `-128..128`.
pub open spec fn is_encodable(op: Opcode) -> bool {
    match op {
        Opcode::Add(d, s) => d < 16 && s < 16,
        Opcode::Sub(d, s) => d < 16 && s < 16,
        Opcode::Mul(d, s) => d < 16 && s < 16,
        Opcode::Div(d, s) => d < 16 && s < 16,
        Opcode::Mov(d, s) => d < 16 && s < 16,
        Opcode::Ld(d, a) => d < 16 && a < 16,
        Opcode::St(a, s) => a < 16 && s < 16,
        Opcode::Ldi(d, imm) => d < 16 && 0 <= imm < 16,
        Opcode::Jmp(offset) => -128 <= offset < 128,
        Opcode::Jz(r, offset) => r < 16 && 0 <= offset < 16,
        _ => true,
    }
}

proof fn lemma_hex_pair_roundtrip(b: u8)
    ensures
        byte_of_pair(hex_digit(b >> 4u8), hex_digit(b & 0x0F)) == b,
{
    let h = b >> 4u8;
    let l = b & 0x0F;
    assert(h < 16 && l < 16 && h * 16 + l == b) by (bit_vector)
        requires
            h == b >> 4u8,
            l == b & 0x0F,
    ;
    assert(hex_value(hex_digit(h)) == Some(h));
    assert(hex_value(hex_digit(l)) == Some(l));
}

proof fn lemma_pack_registers(d: u8, s: u8)
    ensures
        ((d << 4u8) | s) >> 4u8 == d && ((d << 4u8) | s) & 0x0F == s <==> d < 16 && s < 16,
        ((((d << 4u8) | s) >> 4u8) << 4u8) | (((d << 4u8) | s) & 0x0F) == (d << 4u8) | s,
{
    assert(((d << 4u8) | s) >> 4u8 == d && ((d << 4u8) | s) & 0x0F == s <==> d < 16 && s < 16)
        by (bit_vector);
    assert(((((d << 4u8) | s) >> 4u8) << 4u8) | (((d << 4u8) | s) & 0x0F) == (d << 4u8) | s)
        by (bit_vector);
}

proof fn lemma_pack_immediate(d: u8, imm: i32)
    ensures
        (((d & 0x0F) << 4u8) | ((imm as u8) & 0x0F)) >> 4u8 == d & 0x0F,
        ((((((d & 0x0F) << 4u8) | ((imm as u8) & 0x0F)) & 0x0F) as i8) as i32 == imm) <==> (0
            <= imm < 16),
        (((((((d & 0x0F) << 4u8) | ((imm as u8) & 0x0F)) >> 4u8) & 0x0F) << 4u8) | ((((((((
        d & 0x0F) << 4u8) | ((imm as u8) & 0x0F)) & 0x0F) as i8) as i32) as u8) & 0x0F)) == (((d
            & 0x0F) << 4u8) | ((imm as u8) & 0x0F)),
{
    assert((((d & 0x0F) << 4u8) | ((imm as u8) & 0x0F)) >> 4u8 == d & 0x0F) by (bit_vector);
    assert(((((((d & 0x0F) << 4u8) | ((imm as u8) & 0x0F)) & 0x0F) as i8) as i32 == imm) <==> (0
        <= imm < 16)) by (bit_vector);
    assert((((((((d & 0x0F) << 4u8) | ((imm as u8) & 0x0F)) >> 4u8) & 0x0F) << 4u8) | ((((((((d
        & 0x0F) << 4u8) | ((imm as u8) & 0x0F)) & 0x0F) as i8) as i32) as u8) & 0x0F)) == (((d
        & 0x0F) << 4u8) | ((imm as u8) & 0x0F))) by (bit_vector);
}

proof fn lemma_signed_byte(offset: i32)
    ensures
        (((offset as u8) as i8) as i32 == offset) <==> (-128 <= offset < 128),
        (((offset as u8) as i8) as i32) as u8 == offset as u8,
{
    assert((((offset as u8) as i8) as i32 == offset) <==> (-128 <= offset < 128)) by (bit_vector);
    assert((((offset as u8) as i8) as i32) as u8 == offset as u8) by (bit_vector);
}

/// Decoding the two bytes of an instruction gives it back exactly when its
/// operands fit the format, and encoding the decoded instruction again gives
/// the same two bytes.
pub proof fn lemma_op_roundtrip(op: Opcode)
    ensures
        (decode_op(encode_op(op).0, encode_op(op).1) == op) <==> is_encodable(op),
        encode_op(decode_op(encode_op(op).0, encode_op(op).1)) == encode_op(op),
{
    match op {
        Opcode::Add(d, s) => lemma_pack_registers(d, s),
        Opcode::Sub(d, s) => lemma_pack_registers(d, s),
        Opcode::Mul(d, s) => lemma_pack_registers(d, s),
        Opcode::Div(d, s) => lemma_pack_registers(d, s),
        Opcode::Mov(d, s) => lemma_pack_registers(d, s),
        Opcode::Ld(d, a) => lemma_pack_registers(d, a),
        Opcode::St(a, s) => lemma_pack_registers(a, s),
        Opcode::Ldi(d, imm) => {
            lemma_pack_immediate(d, imm);
            assert((d & 0x0F == d) <==> d < 16) by (bit_vector);
        },
        Opcode::Jz(r, offset) => {
            lemma_pack_immediate(r, offset);
            assert((r & 0x0F == r) <==> r < 16) by (bit_vector);
        },
        Opcode::Jmp(offset) => lemma_signed_byte(offset),
        _ => {},
    }
}

proof fn lemma_decode_encode_at(program: Seq<Opcode>, k: int)
    requires
        0 <= k < program.len(),
    ensures
        decoded_at(encode_spec(program), k) == decode_op(
            encode_op(program[k]).0,
            encode_op(program[k]).1,
        ),
{
    let e = encode_spec(program);
    let (a, b) = encode_op(program[k]);
    assert((4 * k) / 4 == k && (4 * k) % 4 == 0);
    assert((4 * k + 1) / 4 == k && (4 * k + 1) % 4 == 1);
    assert((4 * k + 2) / 4 == k && (4 * k + 2) % 4 == 2);
    assert((4 * k + 3) / 4 == k && (4 * k + 3) % 4 == 3);
    lemma_hex_pair_roundtrip(a);
    lemma_hex_pair_roundtrip(b);
}

/// Writing a program as text and reading it back gives the same program
/// exactly when every instruction's operands fit the format.
pub proof fn lemma_decode_encode(program: Seq<Opcode>)
    ensures
        (decode_spec(encode_spec(program)) == program) <==> (forall|i: int|
            0 <= i < program.len() ==> #[trigger] is_encodable(program[i])),
{
    let d = decode_spec(encode_spec(program));
    assert((4 * program.len()) / 4 == program.len());
    assert forall|k: int| 0 <= k < program.len() implies d[k] == decode_op(
        encode_op(program[k]).0,
        encode_op(program[k]).1,
    ) by {
        lemma_decode_encode_at(program, k);
    }
    if forall|i: int| 0 <= i < program.len() ==> #[trigger] is_encodable(program[i]) {
        assert forall|k: int| 0 <= k < program.len() implies d[k] == program[k] by {
            lemma_op_roundtrip(program[k]);
        }
        assert(d =~= program);
    }
    if d == program {
        assert forall|i: int| 0 <= i < program.len() implies #[trigger] is_encodable(
            program[i],
        ) by {
            lemma_op_roundtrip(program[i]);
        }
    }
}

/// Every text that `encode` writes is read back to a program that `encode`
/// writes as the same text.
pub proof fn lemma_encode_decode_encode(program: Seq<Opcode>)
    ensures
        encode_spec(decode_spec(encode_spec(program))) == encode_spec(program),
{
    let d = decode_spec(encode_spec(program));
    assert((4 * program.len()) / 4 == program.len());
    assert forall|k: int| 0 <= k < program.len() implies encode_op(#[trigger] d[k]) == encode_op(
        program[k],
    ) by {
        lemma_decode_encode_at(program, k);
        lemma_op_roundtrip(program[k]);
    }
    assert forall|i: int| 0 <= i < 4 * program.len() implies encode_spec(d)[i] == encode_spec(
        program,
    )[i] by {
        assert(encode_op(d[i / 4]) == encode_op(program[i / 4]));
    }
    assert(encode_spec(d) =~= encode_spec(program));
}

/// The operation byte of each instruction kind, and its operand byte when
/// the operands fit four bits each: `Nop` 0x00, `Inc` 0x01, `Dec` 0x02,
/// `Add` 0x03, `Sub` 0x04, `Mul` 0x05, `Div` 0x06, `Mov` 0x07, `Ldi` 0x08,
/// `Jmp` 0x09, `Jz` 0x0A, `IoOut` 0x0B, `Ld` 0x0C, `St` 0x0D, `Hlt` 0x0E;
/// two registers are packed as `16 * first + second`.
pub proof fn lemma_encoding_table(op: Opcode)
    ensures
        op is Nop ==> encode_op(op) == (0x00u8, 0x00u8),
        op matches Opcode::Inc(r) ==> encode_op(op) == (0x01u8, r),
        op matches Opcode::Dec(r) ==> encode_op(op) == (0x02u8, r),
        op matches Opcode::Add(d, x) ==> encode_op(op).0 == 0x03 && (d < 16 && x < 16 ==> encode_op(op).1 == 16 * d + x),
        op matches Opcode::Sub(d, x) ==> encode_op(op).0 == 0x04 && (d < 16 && x < 16 ==> encode_op(op).1 == 16 * d + x),
        op matches Opcode::Mul(d, x) ==> encode_op(op).0 == 0x05 && (d < 16 && x < 16 ==> encode_op(op).1 == 16 * d + x),
        op matches Opcode::Div(d, x) ==> encode_op(op).0 == 0x06 && (d < 16 && x < 16 ==> encode_op(op).1 == 16 * d + x),
        op matches Opcode::Mov(d, x) ==> encode_op(op).0 == 0x07 && (d < 16 && x < 16 ==> encode_op(op).1 == 16 * d + x),
        op matches Opcode::Ldi(d, imm) ==> encode_op(op).0 == 0x08 && (d < 16 && 0 <= imm < 16 ==> encode_op(op).1 == 16 * d + imm),
        op matches Opcode::Jmp(off) ==> encode_op(op).0 == 0x09 && (0 <= off < 128 ==> encode_op(op).1 == off) && (-128 <= off < 0 ==> encode_op(op).1 == off + 256),
        op matches Opcode::Jz(r, off) ==> encode_op(op).0 == 0x0A && (r < 16 && 0 <= off < 16 ==> encode_op(op).1 == 16 * r + off),
        op matches Opcode::IoOut(r) ==> encode_op(op) == (0x0Bu8, r),
        op matches Opcode::Ld(d, a) ==> encode_op(op).0 == 0x0C && (d < 16 && a < 16 ==> encode_op(op).1 == 16 * d + a),
        op matches Opcode::St(a, x) ==> encode_op(op).0 == 0x0D && (a < 16 && x < 16 ==> encode_op(op).1 == 16 * a + x),
        op is Hlt ==> encode_op(op) == (0x0Eu8, 0x00u8),
{
    match op {
        Opcode::Add(d, x) | Opcode::Sub(d, x) | Opcode::Mul(d, x) | Opcode::Div(d, x) | Opcode::Mov(d, x)
        | Opcode::Ld(d, x) | Opcode::St(d, x) => {
            assert(d < 16 && x < 16 ==> (d << 4u8) | x == 16 * d + x) by (bit_vector);
        },
        Opcode::Ldi(d, imm) | Opcode::Jz(d, imm) => {
            assert(d < 16 && 0 <= imm < 16 ==> ((d & 0x0F) << 4u8) | ((imm as u8) & 0x0F) == 16 * d + imm)
                by (bit_vector);
        },
        Opcode::Jmp(off) => {
            assert(0 <= off < 128 ==> (off as u8) == off) by (bit_vector);
            assert(-128 <= off < 0 ==> (off as u8) == off + 256) by (bit_vector);
        },
        _ => {},
    }
}

/// Which instruction each operation byte reads as: 0x00 `Nop`, 0x01 `Inc`,
/// 0x02 `Dec`, 0x03 `Add`, 0x04 `Sub`, 0x05 `Mul`, 0x06 `Div`, 0x07 `Mov`,
/// 0x08 `Ldi`, 0x09 `Jmp`, 0x0A `Jz`, 0x0B `IoOut`, 0x0C `Ld`, 0x0D `St`,
/// anything else `Hlt`; a packed operand byte splits into its high and low
/// four bits, and a `Jmp` offset is the operand byte read as a signed byte.
pub proof fn lemma_decoding_table(code: u8, arg: u8)
    ensures
        code == 0x00 ==> decode_op(code, arg) == Opcode::Nop,
        code == 0x01 ==> decode_op(code, arg) == Opcode::Inc(arg),
        code == 0x02 ==> decode_op(code, arg) == Opcode::Dec(arg),
        code == 0x03 ==> decode_op(code, arg) == Opcode::Add(arg / 16, arg % 16),
        code == 0x04 ==> decode_op(code, arg) == Opcode::Sub(arg / 16, arg % 16),
        code == 0x05 ==> decode_op(code, arg) == Opcode::Mul(arg / 16, arg % 16),
        code == 0x06 ==> decode_op(code, arg) == Opcode::Div(arg / 16, arg % 16),
        code == 0x07 ==> decode_op(code, arg) == Opcode::Mov(arg / 16, arg % 16),
        code == 0x08 ==> decode_op(code, arg) == Opcode::Ldi(arg / 16, (arg % 16) as i32),
        code == 0x09 ==> decode_op(code, arg) == Opcode::Jmp(if arg < 128 { arg as i32 } else { (arg - 256) as i32 }),
        code == 0x0A ==> decode_op(code, arg) == Opcode::Jz(arg / 16, (arg % 16) as i32),
        code == 0x0B ==> decode_op(code, arg) == Opcode::IoOut(arg),
        code == 0x0C ==> decode_op(code, arg) == Opcode::Ld(arg / 16, arg % 16),
        code == 0x0D ==> decode_op(code, arg) == Opcode::St(arg / 16, arg % 16),
        code > 0x0D ==> decode_op(code, arg) == Opcode::Hlt,
{
    assert(arg >> 4u8 == arg / 16 && arg & 0x0F == arg % 16) by (bit_vector);
    assert(((arg & 0x0F) as i8) as i32 == (arg % 16) as i32) by (bit_vector);
    assert((arg as i8) as i32 == if arg < 128 { arg as i32 } else { (arg - 256) as i32 }) by (bit_vector);
}

/// Each instruction is written as its operation byte then its operand byte,
/// each as two upper-case hexadecimal digits, high digit first.
pub proof fn lemma_encode_digits(op: Opcode)
    ensures
        encode_spec(seq![op]).len() == 4,
        encode_spec(seq![op])[0] == hex_digit(encode_op(op).0 / 16),
        encode_spec(seq![op])[1] == hex_digit(encode_op(op).0 % 16),
        encode_spec(seq![op])[2] == hex_digit(encode_op(op).1 / 16),
        encode_spec(seq![op])[3] == hex_digit(encode_op(op).1 % 16),
        forall|n: u8| n < 10 ==> #[trigger] hex_digit(n) as u32 == '0' as u32 + n,
        forall|n: u8| 10 <= n < 16 ==> #[trigger] hex_digit(n) as u32 == 'A' as u32 + (n - 10),
{
    let (a, b) = encode_op(op);
    assert(a >> 4u8 == a / 16 && a & 0x0F == a % 16) by (bit_vector);
    assert(b >> 4u8 == b / 16 && b & 0x0F == b % 16) by (bit_vector);
    assert(0int / 4 == 0 && 1int / 4 == 0 && 2int / 4 == 0 && 3int / 4 == 0);
    assert(encode_spec(seq![op])[0] == encoded_digit(op, 0));
    assert(encode_spec(seq![op])[1] == encoded_digit(op, 1));
    assert(encode_spec(seq![op])[2] == encoded_digit(op, 2));
    assert(encode_spec(seq![op])[3] == encoded_digit(op, 3));
}

/// The value of a hexadecimal digit of either case, as its character code
/// gives it.
pub open spec fn digit_value(c: char) -> int {
    if '0' <= c <= '9' {
        c as int - '0' as int
    } else if 'A' <= c <= 'F' {
        c as int - 'A' as int + 10
    } else {
        c as int - 'a' as int + 10
    }
}

/// Whether `c` is a hexadecimal digit of either case.
pub open spec fn is_hex_char(c: char) -> bool {
    ('0' <= c <= '9') || ('A' <= c <= 'F') || ('a' <= c <= 'f')
}

/// How a pair of characters reads as a byte: two hexadecimal digits of
/// either case read as `16 * high + low`; a `+` followed by a digit reads
/// as that digit; any other pair reads as zero.
pub proof fn lemma_pair_reading(hi: char, lo: char)
    ensures
        is_hex_char(hi) && is_hex_char(lo) ==> byte_of_pair(hi, lo) == 16 * digit_value(hi) + digit_value(lo),
        hi == '+' && is_hex_char(lo) ==> byte_of_pair(hi, lo) == digit_value(lo),
        hi != '+' && !is_hex_char(hi) ==> byte_of_pair(hi, lo) == 0,
        !is_hex_char(lo) ==> byte_of_pair(hi, lo) == 0,
{
}

} // verus!
