//! Commit logs of the reference core and the core under test: decoding of
//! the committed RISC-V instructions, their disassembly, and the comparison
//! of two logs entry by entry.

use vstd::prelude::*;
use vstd::string::*;
use crate::text::{int_decimal, nat_decimal, nat_hex, zero_padded, i64_to_decimal, u64_to_decimal, u64_to_hex,
    u64_to_hex_padded};
use crate::cycle_types::CycleCount;

verus! {

// ----------------------------------------------------------------------------
// Instruction fields
// ----------------------------------------------------------------------------

pub open spec fn opcode_of(inst: i64) -> i64 {
    inst & 0x7f
}

pub open spec fn rd_of(inst: i64) -> i64 {
    (inst >> 7u64) & 0x1f
}

pub open spec fn funct3_of(inst: i64) -> i64 {
    (inst >> 12u64) & 0x7
}

pub open spec fn rs1_of(inst: i64) -> i64 {
    (inst >> 15u64) & 0x1f
}

pub open spec fn rs2_of(inst: i64) -> i64 {
    (inst >> 20u64) & 0x1f
}

pub open spec fn funct7_of(inst: i64) -> i64 {
    (inst >> 25u64) & 0x7f
}

/// The I-type immediate: the bits from bit 20 up.
pub open spec fn imm_i_of(inst: i64) -> i64 {
    inst >> 20u64
}

/// The S-type immediate: bits 7..12 below bits 25..32.
pub open spec fn imm_s_of(inst: i64) -> i64 {
    ((inst >> 7u64) & 0x1f) | (((inst >> 25u64) & 0x7f) << 5u64)
}

/// The B-type immediate: bits 8..12, 25..31, 7 and 31 at positions 1, 5, 11 and 12.
pub open spec fn imm_b_of(inst: i64) -> i64 {
    (((inst >> 8u64) & 0x0f) << 1u64) | (((inst >> 25u64) & 0x3f) << 5u64) | (((inst >> 7u64) & 0x01) << 11u64)
        | (((inst >> 31u64) & 0x01) << 12u64)
}

/// The U-type immediate: the instruction with its low twelve bits cleared.
pub open spec fn imm_u_of(inst: i64) -> i64 {
    inst & 0xfffff000
}

/// The J-type immediate: bits 21..31, 20, 12..20 and 31 at positions 1, 11, 12 and 20.
pub open spec fn imm_j_of(inst: i64) -> i64 {
    (((inst >> 21u64) & 0x03ff) << 1u64) | (((inst >> 20u64) & 0x01) << 11u64) | (((inst >> 12u64) & 0x0ff) << 12u64)
        | (((inst >> 31u64) & 0x01) << 20u64)
}

/// Which of the fields rd, rs1 and rs2 an instruction uses; rd counts only
/// where it is not register zero.
pub open spec fn spec_fields_used(inst: i64) -> (bool, bool, bool) {
    let op = opcode_of(inst);
    let rd_non_zero = rd_of(inst) != 0;
    if op == 0x33 { (rd_non_zero, true, true) }
    else if op == 0x13 { (rd_non_zero, true, false) }
    else if op == 0x03 { (rd_non_zero, true, false) }
    else if op == 0x23 { (false, true, true) }
    else if op == 0x63 { (false, true, true) }
    else if op == 0x6f { (rd_non_zero, false, false) }
    else if op == 0x67 { (rd_non_zero, true, false) }
    else if op == 0x37 { (rd_non_zero, false, false) }
    else if op == 0x17 { (rd_non_zero, false, false) }
    else if op == 0x0f { (false, false, false) }
    else if op == 0x2f { (rd_non_zero, true, true) }
    else if op == 0x73 {
        if funct3_of(inst) == 0 { (false, false, false) } else { (rd_non_zero, true, false) }
    }
    else { (false, false, false) }
}

/// Which of rd, rs1 and rs2 an instruction uses.
pub fn which_fields_used_by_instr(inst: i64) -> (r: (bool, bool, bool))
    ensures
        r == spec_fields_used(inst),
{
    let opcode = inst & 0x7f;
    let rd = (inst >> 7u64) & 0x1f;
    let rd_non_zero = rd != 0;
    if opcode == 0x33 { (rd_non_zero, true, true) }
    else if opcode == 0x13 { (rd_non_zero, true, false) }
    else if opcode == 0x03 { (rd_non_zero, true, false) }
    else if opcode == 0x23 { (false, true, true) }
    else if opcode == 0x63 { (false, true, true) }
    else if opcode == 0x6f { (rd_non_zero, false, false) }
    else if opcode == 0x67 { (rd_non_zero, true, false) }
    else if opcode == 0x37 { (rd_non_zero, false, false) }
    else if opcode == 0x17 { (rd_non_zero, false, false) }
    else if opcode == 0x0f { (false, false, false) }
    else if opcode == 0x2f { (rd_non_zero, true, true) }
    else if opcode == 0x73 {
        let funct3 = (inst >> 12u64) & 0x7;
        if funct3 == 0 { (false, false, false) } else { (rd_non_zero, true, false) }
    }
    else { (false, false, false) }
}


// ----------------------------------------------------------------------------
// Disassembly
// ----------------------------------------------------------------------------

/// `NAME xA, xB, xC`
pub open spec fn three_regs_text(name: Seq<char>, a: i64, b: i64, c: i64) -> Seq<char> {
    name + " x"@ + int_decimal(a as int) + ", x"@ + int_decimal(b as int) + ", x"@ + int_decimal(c as int)
}

/// `NAME xA, xB, IMM`
pub open spec fn two_regs_imm_text(name: Seq<char>, a: i64, b: i64, imm: i64) -> Seq<char> {
    name + " x"@ + int_decimal(a as int) + ", x"@ + int_decimal(b as int) + ", "@ + int_decimal(imm as int)
}

/// `NAME xR, IMM(xBASE)`
pub open spec fn offset_text(name: Seq<char>, r: i64, imm: i64, base: i64) -> Seq<char> {
    name + " x"@ + int_decimal(r as int) + ", "@ + int_decimal(imm as int) + "(x"@ + int_decimal(base as int) + ")"@
}

/// `NAME xR, IMM`
pub open spec fn reg_imm_text(name: Seq<char>, r: i64, imm: i64) -> Seq<char> {
    name + " x"@ + int_decimal(r as int) + ", "@ + int_decimal(imm as int)
}

/// `NAME xR, xS, 0xCSR` where `with_reg`, else `NAME xR, S, 0xCSR`.
pub open spec fn csr_text(name: Seq<char>, r: i64, s: i64, csr: i64, with_reg: bool) -> Seq<char> {
    name + " x"@ + int_decimal(r as int) + (if with_reg { ", x"@ } else { ", "@ }) + int_decimal(s as int)
        + ", 0x"@ + nat_hex(csr as nat)
}

pub open spec fn r_type_name(funct3: i64, funct7: i64) -> Option<Seq<char>> {
    if funct3 == 0 && funct7 == 0 { Some("ADD"@) }
    else if funct3 == 0 && funct7 == 0x20 { Some("SUB"@) }
    else if funct3 == 7 && funct7 == 0 { Some("AND"@) }
    else if funct3 == 6 && funct7 == 0 { Some("OR"@) }
    else if funct3 == 4 && funct7 == 0 { Some("XOR"@) }
    else if funct3 == 1 && funct7 == 0 { Some("SLL"@) }
    else if funct3 == 5 && funct7 == 0 { Some("SRL"@) }
    else if funct3 == 5 && funct7 == 0x20 { Some("SRA"@) }
    else if funct3 == 2 && funct7 == 0 { Some("SLT"@) }
    else if funct3 == 3 && funct7 == 0 { Some("SLTU"@) }
    else { None }
}

pub open spec fn i_arith_name(funct3: i64) -> Option<Seq<char>> {
    if funct3 == 0 { Some("ADDI"@) }
    else if funct3 == 7 { Some("ANDI"@) }
    else if funct3 == 6 { Some("ORI"@) }
    else if funct3 == 4 { Some("XORI"@) }
    else if funct3 == 2 { Some("SLTI"@) }
    else if funct3 == 3 { Some("SLTIU"@) }
    else { None }
}

pub open spec fn load_name(funct3: i64) -> Option<Seq<char>> {
    if funct3 == 0 { Some("LB"@) }
    else if funct3 == 1 { Some("LH"@) }
    else if funct3 == 2 { Some("LW"@) }
    else if funct3 == 4 { Some("LBU"@) }
    else if funct3 == 5 { Some("LHU"@) }
    else { None }
}

pub open spec fn store_name(funct3: i64) -> Option<Seq<char>> {
    if funct3 == 0 { Some("SB"@) }
    else if funct3 == 1 { Some("SH"@) }
    else if funct3 == 2 { Some("SW"@) }
    else { None }
}

pub open spec fn branch_name(funct3: i64) -> Option<Seq<char>> {
    if funct3 == 0 { Some("BEQ"@) }
    else if funct3 == 1 { Some("BNE"@) }
    else if funct3 == 4 { Some("BLT"@) }
    else if funct3 == 5 { Some("BGE"@) }
    else if funct3 == 6 { Some("BLTU"@) }
    else if funct3 == 7 { Some("BGEU"@) }
    else { None }
}

/// CSR instruction name and whether its source is a register.
pub open spec fn csr_name(funct3: i64) -> Option<(Seq<char>, bool)> {
    if funct3 == 1 { Some(("CSRRW"@, true)) }
    else if funct3 == 2 { Some(("CSRRS"@, true)) }
    else if funct3 == 3 { Some(("CSRRC"@, true)) }
    else if funct3 == 5 { Some(("CSRRWI"@, false)) }
    else if funct3 == 6 { Some(("CSRRSI"@, false)) }
    else if funct3 == 7 { Some(("CSRRCI"@, false)) }
    else { None }
}

/// The assembly text of an instruction, or `UNKNOWN`.
pub open spec fn spec_disassembly(inst: i64) -> Seq<char> {
    let op = opcode_of(inst);
    let rd = rd_of(inst);
    let f3 = funct3_of(inst);
    let rs1 = rs1_of(inst);
    let rs2 = rs2_of(inst);
    let f7 = funct7_of(inst);
    let imm_i = imm_i_of(inst);
    if op == 0x33 {
        match r_type_name(f3, f7) {
            Some(n) => three_regs_text(n, rd, rs1, rs2),
            None => "UNKNOWN"@,
        }
    } else if op == 0x13 {
        if f3 == 1 {
            two_regs_imm_text("SLLI"@, rd, rs1, imm_i & 0x1f)
        } else if f3 == 5 {
            two_regs_imm_text(if f7 == 0x20 { "SRAI"@ } else { "SRLI"@ }, rd, rs1, imm_i & 0x1f)
        } else {
            match i_arith_name(f3) {
                Some(n) => two_regs_imm_text(n, rd, rs1, imm_i),
                None => "UNKNOWN"@,
            }
        }
    } else if op == 0x03 {
        match load_name(f3) {
            Some(n) => offset_text(n, rd, imm_i, rs1),
            None => "UNKNOWN"@,
        }
    } else if op == 0x23 {
        match store_name(f3) {
            Some(n) => offset_text(n, rs2, imm_s_of(inst), rs1),
            None => "UNKNOWN"@,
        }
    } else if op == 0x63 {
        match branch_name(f3) {
            Some(n) => two_regs_imm_text(n, rs1, rs2, imm_b_of(inst)),
            None => "UNKNOWN"@,
        }
    } else if op == 0x6f {
        reg_imm_text("JAL"@, rd, imm_j_of(inst))
    } else if op == 0x67 {
        offset_text("JALR"@, rd, imm_i, rs1)
    } else if op == 0x37 {
        reg_imm_text("LUI"@, rd, imm_u_of(inst))
    } else if op == 0x17 {
        reg_imm_text("AUIPC"@, rd, imm_u_of(inst))
    } else if op == 0x0f {
        "FENCE"@
    } else if op == 0x73 {
        if f3 == 0 {
            "SYSTEM"@
        } else {
            match csr_name(f3) {
                Some((n, with_reg)) => csr_text(n, rd, rs1, imm_i & 0xfff, with_reg),
                None => "UNKNOWN"@,
            }
        }
    } else {
        "UNKNOWN"@
    }
}

fn push_str(s: &mut String, t: &str)
    ensures
        final(s)@ == old(s)@ + t@,
{
    s.append(t);
}

fn push_decimal(s: &mut String, v: i64)
    ensures
        final(s)@ == old(s)@ + int_decimal(v as int),
{
    let d = i64_to_decimal(v);
    s.append(d.as_str());
}

fn three_regs(name: &str, a: i64, b: i64, c: i64) -> (s: String)
    ensures
        s@ == three_regs_text(name@, a, b, c),
{
    let mut s = String::from_str(name);
    push_str(&mut s, " x");
    push_decimal(&mut s, a);
    push_str(&mut s, ", x");
    push_decimal(&mut s, b);
    push_str(&mut s, ", x");
    push_decimal(&mut s, c);
    s
}

fn two_regs_imm(name: &str, a: i64, b: i64, imm: i64) -> (s: String)
    ensures
        s@ == two_regs_imm_text(name@, a, b, imm),
{
    let mut s = String::from_str(name);
    push_str(&mut s, " x");
    push_decimal(&mut s, a);
    push_str(&mut s, ", x");
    push_decimal(&mut s, b);
    push_str(&mut s, ", ");
    push_decimal(&mut s, imm);
    s
}

fn offset(name: &str, r: i64, imm: i64, base: i64) -> (s: String)
    ensures
        s@ == offset_text(name@, r, imm, base),
{
    let mut s = String::from_str(name);
    push_str(&mut s, " x");
    push_decimal(&mut s, r);
    push_str(&mut s, ", ");
    push_decimal(&mut s, imm);
    push_str(&mut s, "(x");
    push_decimal(&mut s, base);
    push_str(&mut s, ")");
    s
}

fn reg_imm(name: &str, r: i64, imm: i64) -> (s: String)
    ensures
        s@ == reg_imm_text(name@, r, imm),
{
    let mut s = String::from_str(name);
    push_str(&mut s, " x");
    push_decimal(&mut s, r);
    push_str(&mut s, ", ");
    push_decimal(&mut s, imm);
    s
}

fn csr_instr(name: &str, r: i64, src: i64, csr: i64, with_reg: bool) -> (s: String)
    requires
        0 <= csr,
    ensures
        s@ == csr_text(name@, r, src, csr, with_reg),
{
    let mut s = String::from_str(name);
    push_str(&mut s, " x");
    push_decimal(&mut s, r);
    if with_reg {
        push_str(&mut s, ", x");
    } else {
        push_str(&mut s, ", ");
    }
    push_decimal(&mut s, src);
    push_str(&mut s, ", 0x");
    let h = u64_to_hex(csr as u64);
    push_str(&mut s, h.as_str());
    s
}

fn unknown() -> (s: String)
    ensures
        s@ == "UNKNOWN"@,
{
    String::from_str("UNKNOWN")
}

/// The assembly text of a committed instruction, such as `ADD x1, x2, x3`
/// or `LW x1, 0(x2)`; `UNKNOWN` for encodings it does not know.
pub fn disassemble_instruction(inst: i64) -> (r: String)
    ensures
        r@ == spec_disassembly(inst),
{
    let opcode = inst & 0x7f;
    let rd = (inst >> 7u64) & 0x1f;
    let funct3 = (inst >> 12u64) & 0x7;
    let rs1 = (inst >> 15u64) & 0x1f;
    let rs2 = (inst >> 20u64) & 0x1f;
    let funct7 = (inst >> 25u64) & 0x7f;
    let imm_i = inst >> 20u64;
    let imm_s = ((inst >> 7u64) & 0x1f) | (((inst >> 25u64) & 0x7f) << 5u64);
    assert(0 <= imm_s < 4096) by (bit_vector)
        requires imm_s == ((inst >> 7u64) & 0x1f) | (((inst >> 25u64) & 0x7f) << 5u64);
    assert(((imm_s << 20u64) >> 20u64) == imm_s) by (bit_vector)
        requires 0 <= imm_s < 4096;
    let imm_s = (imm_s << 20u64) >> 20u64;
    let imm_b = (((inst >> 8u64) & 0x0f) << 1u64) | (((inst >> 25u64) & 0x3f) << 5u64)
        | (((inst >> 7u64) & 0x01) << 11u64) | (((inst >> 31u64) & 0x01) << 12u64);
    assert(0 <= imm_b < 8192) by (bit_vector)
        requires imm_b == (((inst >> 8u64) & 0x0f) << 1u64) | (((inst >> 25u64) & 0x3f) << 5u64)
            | (((inst >> 7u64) & 0x01) << 11u64) | (((inst >> 31u64) & 0x01) << 12u64);
    assert(((imm_b << 19u64) >> 19u64) == imm_b) by (bit_vector)
        requires 0 <= imm_b < 8192;
    let imm_b = (imm_b << 19u64) >> 19u64;
    let imm_u = inst & 0xfffff000;
    let imm_j = (((inst >> 21u64) & 0x03ff) << 1u64) | (((inst >> 20u64) & 0x01) << 11u64)
        | (((inst >> 12u64) & 0x0ff) << 12u64) | (((inst >> 31u64) & 0x01) << 20u64);
    assert(0 <= imm_j < 2097152) by (bit_vector)
        requires imm_j == (((inst >> 21u64) & 0x03ff) << 1u64) | (((inst >> 20u64) & 0x01) << 11u64)
            | (((inst >> 12u64) & 0x0ff) << 12u64) | (((inst >> 31u64) & 0x01) << 20u64);
    assert(((imm_j << 11u64) >> 11u64) == imm_j) by (bit_vector)
        requires 0 <= imm_j < 2097152;
    let imm_j = (imm_j << 11u64) >> 11u64;

    if opcode == 0x33 {
        if funct3 == 0 && funct7 == 0 { three_regs("ADD", rd, rs1, rs2) }
        else if funct3 == 0 && funct7 == 0x20 { three_regs("SUB", rd, rs1, rs2) }
        else if funct3 == 7 && funct7 == 0 { three_regs("AND", rd, rs1, rs2) }
        else if funct3 == 6 && funct7 == 0 { three_regs("OR", rd, rs1, rs2) }
        else if funct3 == 4 && funct7 == 0 { three_regs("XOR", rd, rs1, rs2) }
        else if funct3 == 1 && funct7 == 0 { three_regs("SLL", rd, rs1, rs2) }
        else if funct3 == 5 && funct7 == 0 { three_regs("SRL", rd, rs1, rs2) }
        else if funct3 == 5 && funct7 == 0x20 { three_regs("SRA", rd, rs1, rs2) }
        else if funct3 == 2 && funct7 == 0 { three_regs("SLT", rd, rs1, rs2) }
        else if funct3 == 3 && funct7 == 0 { three_regs("SLTU", rd, rs1, rs2) }
        else { unknown() }
    } else if opcode == 0x13 {
        if funct3 == 0 { two_regs_imm("ADDI", rd, rs1, imm_i) }
        else if funct3 == 7 { two_regs_imm("ANDI", rd, rs1, imm_i) }
        else if funct3 == 6 { two_regs_imm("ORI", rd, rs1, imm_i) }
        else if funct3 == 4 { two_regs_imm("XORI", rd, rs1, imm_i) }
        else if funct3 == 2 { two_regs_imm("SLTI", rd, rs1, imm_i) }
        else if funct3 == 3 { two_regs_imm("SLTIU", rd, rs1, imm_i) }
        else if funct3 == 1 {
            let shamt = imm_i & 0x1f;
            two_regs_imm("SLLI", rd, rs1, shamt)
        } else if funct3 == 5 {
            let shamt = imm_i & 0x1f;
            if funct7 == 0x20 {
                two_regs_imm("SRAI", rd, rs1, shamt)
            } else {
                two_regs_imm("SRLI", rd, rs1, shamt)
            }
        } else { unknown() }
    } else if opcode == 0x03 {
        if funct3 == 0 { offset("LB", rd, imm_i, rs1) }
        else if funct3 == 1 { offset("LH", rd, imm_i, rs1) }
        else if funct3 == 2 { offset("LW", rd, imm_i, rs1) }
        else if funct3 == 4 { offset("LBU", rd, imm_i, rs1) }
        else if funct3 == 5 { offset("LHU", rd, imm_i, rs1) }
        else { unknown() }
    } else if opcode == 0x23 {
        if funct3 == 0 { offset("SB", rs2, imm_s, rs1) }
        else if funct3 == 1 { offset("SH", rs2, imm_s, rs1) }
        else if funct3 == 2 { offset("SW", rs2, imm_s, rs1) }
        else { unknown() }
    } else if opcode == 0x63 {
        if funct3 == 0 { two_regs_imm("BEQ", rs1, rs2, imm_b) }
        else if funct3 == 1 { two_regs_imm("BNE", rs1, rs2, imm_b) }
        else if funct3 == 4 { two_regs_imm("BLT", rs1, rs2, imm_b) }
        else if funct3 == 5 { two_regs_imm("BGE", rs1, rs2, imm_b) }
        else if funct3 == 6 { two_regs_imm("BLTU", rs1, rs2, imm_b) }
        else if funct3 == 7 { two_regs_imm("BGEU", rs1, rs2, imm_b) }
        else { unknown() }
    } else if opcode == 0x6f {
        reg_imm("JAL", rd, imm_j)
    } else if opcode == 0x67 {
        offset("JALR", rd, imm_i, rs1)
    } else if opcode == 0x37 {
        reg_imm("LUI", rd, imm_u)
    } else if opcode == 0x17 {
        reg_imm("AUIPC", rd, imm_u)
    } else if opcode == 0x0f {
        String::from_str("FENCE")
    } else if opcode == 0x73 {
        let csr = imm_i & 0xfff;
        assert(0 <= csr) by (bit_vector)
            requires csr == imm_i & 0xfff;
        if funct3 == 0 { String::from_str("SYSTEM") }
        else if funct3 == 1 { csr_instr("CSRRW", rd, rs1, csr, true) }
        else if funct3 == 2 { csr_instr("CSRRS", rd, rs1, csr, true) }
        else if funct3 == 3 { csr_instr("CSRRC", rd, rs1, csr, true) }
        else if funct3 == 5 { csr_instr("CSRRWI", rd, rs1, csr, false) }
        else if funct3 == 6 { csr_instr("CSRRSI", rd, rs1, csr, false) }
        else if funct3 == 7 { csr_instr("CSRRCI", rd, rs1, csr, false) }
        else { unknown() }
    } else {
        unknown()
    }
}


// ----------------------------------------------------------------------------
// Commit logs
// ----------------------------------------------------------------------------

/// One committed instruction with the values it committed.
#[derive(Debug, Clone, Copy, PartialEq, Eq, Structural)]
pub struct CommitEntry {
    pub cycle: CycleCount,
    pub rd: i64,
    pub rs1: i64,
    pub rs2: i64,
    pub pc: i64,
    pub next_pc: i64,
    pub inst: i64,
    pub exception: i64,
}

/// A position at which two commit logs disagree.
#[derive(Debug)]
pub struct CommitDiff {
    pub index: usize,
    pub ref_entry: Option<CommitEntry>,
    pub dut_entry: Option<CommitEntry>,
}

/// Two entries at one position disagree: one is missing, or they differ in a
/// register the reference instruction uses, in the program counters, the
/// instruction or the exception code.
pub open spec fn entries_mismatch(r: Option<CommitEntry>, d: Option<CommitEntry>) -> bool {
    match (r, d) {
        (Some(r), Some(d)) => {
            let used = spec_fields_used(r.inst);
            (used.0 && r.rd != d.rd) || (used.1 && r.rs1 != d.rs1) || (used.2 && r.rs2 != d.rs2)
                || r.pc != d.pc || r.next_pc != d.next_pc || r.inst != d.inst || r.exception != d.exception
        },
        _ => true,
    }
}

pub open spec fn entry_at(log: Seq<CommitEntry>, i: int) -> Option<CommitEntry> {
    if 0 <= i < log.len() { Some(log[i]) } else { None }
}

/// The disagreements among the first `n` positions, in order.
pub open spec fn commit_diffs(ref_log: Seq<CommitEntry>, dut_log: Seq<CommitEntry>, n: nat) -> Seq<CommitDiff>
    decreases n,
{
    if n == 0 {
        Seq::empty()
    } else {
        let prev = commit_diffs(ref_log, dut_log, (n - 1) as nat);
        let i = n - 1;
        if entries_mismatch(entry_at(ref_log, i), entry_at(dut_log, i)) {
            prev.push(CommitDiff { index: i as usize, ref_entry: entry_at(ref_log, i), dut_entry: entry_at(dut_log, i) })
        } else {
            prev
        }
    }
}

pub open spec fn max_len(a: nat, b: nat) -> nat {
    if a >= b { a } else { b }
}

fn get_entry(log: &[CommitEntry], i: usize) -> (r: Option<CommitEntry>)
    ensures
        r == entry_at(log@, i as int),
{
    if i < log.len() { Some(log[i]) } else { None }
}

/// The positions, up to the longer log, at which the logs disagree.
pub fn compare_commit_logs(ref_log: &[CommitEntry], dut_log: &[CommitEntry]) -> (r: Vec<CommitDiff>)
    ensures
        r@ == commit_diffs(ref_log@, dut_log@, max_len(ref_log@.len(), dut_log@.len())),
{
    let n = if ref_log.len() >= dut_log.len() { ref_log.len() } else { dut_log.len() };
    let mut diffs: Vec<CommitDiff> = Vec::new();
    for index in 0..n
        invariant
            diffs@ == commit_diffs(ref_log@, dut_log@, index as nat),
    {
        let ref_entry = get_entry(ref_log, index);
        let dut_entry = get_entry(dut_log, index);
        let mismatch = match (&ref_entry, &dut_entry) {
            (Some(r), Some(d)) => {
                let (rd_used, rs1_used, rs2_used) = which_fields_used_by_instr(r.inst);
                (rd_used && r.rd != d.rd) || (rs1_used && r.rs1 != d.rs1) || (rs2_used && r.rs2 != d.rs2)
                    || (r.pc != d.pc) || (r.next_pc != d.next_pc) || (r.inst != d.inst)
                    || (r.exception != d.exception)
            },
            _ => true,
        };
        if mismatch {
            diffs.push(CommitDiff { index, ref_entry, dut_entry });
        }
    }
    diffs
}

/// Two's-complement hexadecimal text of a signed value, as `{:x}` formats it.
pub open spec fn i64_hex(v: i64) -> Seq<char> {
    nat_hex((v as u64) as nat)
}

/// The one-line description of a commit entry.
pub open spec fn entry_text(e: CommitEntry) -> Seq<char> {
    "cycle="@ + nat_decimal(e.cycle as nat) + " rd=0x"@ + i64_hex(e.rd) + " rs1=0x"@ + i64_hex(e.rs1)
        + " rs2=0x"@ + i64_hex(e.rs2) + " pc=0x"@ + i64_hex(e.pc) + " next_pc=0x"@ + i64_hex(e.next_pc)
        + " inst=0x"@ + zero_padded(i64_hex(e.inst), 8) + "("@ + spec_disassembly(e.inst) + ") (exception: 0x"@
        + i64_hex(e.exception) + ")"@
}

fn push_hex(s: &mut String, v: i64)
    ensures
        final(s)@ == old(s)@ + i64_hex(v),
{
    let h = u64_to_hex(v as u64);
    s.append(h.as_str());
}

/// Describes a commit entry on one line, with its instruction disassembled.
pub fn format_entry(entry: &CommitEntry) -> (r: String)
    ensures
        r@ == entry_text(*entry),
{
    let mut s = String::from_str("cycle=");
    let c = u64_to_decimal(entry.cycle as u64);
    push_str(&mut s, c.as_str());
    push_str(&mut s, " rd=0x");
    push_hex(&mut s, entry.rd);
    push_str(&mut s, " rs1=0x");
    push_hex(&mut s, entry.rs1);
    push_str(&mut s, " rs2=0x");
    push_hex(&mut s, entry.rs2);
    push_str(&mut s, " pc=0x");
    push_hex(&mut s, entry.pc);
    push_str(&mut s, " next_pc=0x");
    push_hex(&mut s, entry.next_pc);
    push_str(&mut s, " inst=0x");
    let inst_hex = u64_to_hex_padded(entry.inst as u64, 8);
    push_str(&mut s, inst_hex.as_str());
    push_str(&mut s, "(");
    let d = disassemble_instruction(entry.inst);
    push_str(&mut s, d.as_str());
    push_str(&mut s, ") (exception: 0x");
    push_hex(&mut s, entry.exception);
    push_str(&mut s, ")");
    s
}

} // verus!
