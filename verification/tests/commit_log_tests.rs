use invariant_finder_rust::commit_log::{
    compare_commit_logs, disassemble_instruction, format_entry, which_fields_used_by_instr, CommitEntry,
};

fn entry(inst: i64, rd: i64) -> CommitEntry {
    CommitEntry { cycle: 3, rd, rs1: 0, rs2: 0, pc: 0x80000000, next_pc: 0x80000004, inst, exception: 0 }
}

#[test]
fn test_disassembly() {
    assert_eq!(disassemble_instruction(0x003100b3), "ADD x1, x2, x3");
    assert_eq!(disassemble_instruction(0x403100b3), "SUB x1, x2, x3");
    assert_eq!(disassemble_instruction(0x00012083), "LW x1, 0(x2)");
    assert_eq!(disassemble_instruction(0xfff00293), "ADDI x5, x0, 4095");
    assert_eq!(disassemble_instruction(0x00112423), "SW x1, 8(x2)");
    assert_eq!(disassemble_instruction(0x00208463), "BEQ x1, x2, 8");
    assert_eq!(disassemble_instruction(0x008000ef), "JAL x1, 8");
    assert_eq!(disassemble_instruction(0x000120b7), "LUI x1, 73728");
    assert_eq!(disassemble_instruction(0x300110f3), "CSRRW x1, x2, 0x300");
    assert_eq!(disassemble_instruction(0x3002d0f3), "CSRRWI x1, 5, 0x300");
    assert_eq!(disassemble_instruction(0x40315093), "SRAI x1, x2, 3");
    assert_eq!(disassemble_instruction(0x0000000f), "FENCE");
    assert_eq!(disassemble_instruction(0x00000073), "SYSTEM");
    assert_eq!(disassemble_instruction(0), "UNKNOWN");
}

#[test]
fn test_fields_used() {
    assert_eq!(which_fields_used_by_instr(0x003100b3), (true, true, true));
    assert_eq!(which_fields_used_by_instr(0x00310033), (false, true, true));
    assert_eq!(which_fields_used_by_instr(0x00112423), (false, true, true));
    assert_eq!(which_fields_used_by_instr(0x000120b7), (true, false, false));
    assert_eq!(which_fields_used_by_instr(0x00000073), (false, false, false));
    assert_eq!(which_fields_used_by_instr(0x300110f3), (true, true, false));
}

#[test]
fn test_format_entry() {
    let e = entry(0x003100b3, -1);
    assert_eq!(
        format_entry(&e),
        "cycle=3 rd=0xffffffffffffffff rs1=0x0 rs2=0x0 pc=0x80000000 next_pc=0x80000004 inst=0x003100b3(ADD x1, x2, x3) (exception: 0x0)"
    );
}

#[test]
fn test_compare_commit_logs() {
    let a = vec![entry(0x003100b3, 1), entry(0x00112423, 7), entry(0x003100b3, 2)];
    let b = vec![entry(0x003100b3, 1), entry(0x00112423, 9)];
    let diffs = compare_commit_logs(&a, &b);
    assert_eq!(diffs.len(), 1);
    assert_eq!(diffs[0].index, 2);
    assert!(diffs[0].dut_entry.is_none());
    let c = vec![entry(0x003100b3, 5)];
    let diffs = compare_commit_logs(&a[..1], &c);
    assert_eq!(diffs.len(), 1);
    assert_eq!(diffs[0].index, 0);
    assert_eq!(compare_commit_logs(&[], &[]).len(), 0);
}
