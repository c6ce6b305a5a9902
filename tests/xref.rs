use memscan::{
    find_potential_call_offsets, get_instruction_context, is_reference_to, scan_region_for_xrefs, Arch,
    DecodedInsn, Disassembler, InsnDetail, InsnOperand, XrefType,
};

fn insn(address: u64, len: usize, groups: Vec<u8>, operands: Vec<InsnOperand>) -> DecodedInsn {
    DecodedInsn {
        address,
        bytes: vec![0; len],
        mnemonic: String::new(),
        op_str: String::new(),
        detail: Some(InsnDetail { groups, operands }),
    }
}

#[test]
fn xref_type_names() {
    assert_eq!(XrefType::Call.to_string(), "call");
    assert_eq!(XrefType::Jump.to_string(), "jump");
    assert_eq!(XrefType::Indirect.to_string(), "indirect");
    assert_eq!(XrefType::DataRef.to_string(), "data_ref");
}

#[test]
fn candidates_follow_opcode_bytes_and_flags() {
    let mut buf = vec![0u8; 20];
    buf[1] = 0xE8;
    buf[4] = 0xE9;
    buf[6] = 0xFF;
    buf[7] = 0x15;
    buf[10] = 0xE8;
    buf[16] = 0xE8;
    buf[14] = 0xFF;
    buf[15] = 0x15;
    assert_eq!(find_potential_call_offsets(&buf, false, false), vec![1, 10]);
    assert_eq!(find_potential_call_offsets(&buf, true, false), vec![1, 10, 4]);
    assert_eq!(find_potential_call_offsets(&buf, true, true), vec![1, 10, 4, 6, 14]);
}

#[test]
fn candidates_reach_the_last_fitting_offset() {
    let mut buf = vec![0u8; 20];
    buf[15] = 0xE8;
    buf[16] = 0xE9;
    assert_eq!(find_potential_call_offsets(&buf, true, false), vec![15]);
    buf[14] = 0xFF;
    buf[15] = 0x15;
    assert_eq!(find_potential_call_offsets(&buf, false, true), vec![14]);
    assert_eq!(find_potential_call_offsets(&[0xE8u8; 5], true, true), vec![0]);
    assert_eq!(find_potential_call_offsets(&[0xE8u8; 4], true, true), Vec::<usize>::new());
}

#[test]
fn reference_by_relative_displacement() {
    let i = insn(0x1000, 5, vec![2], vec![InsnOperand::Imm(0x20)]);
    assert_eq!(is_reference_to(&i, 0x1025, false, false), Some(XrefType::Call));
    assert_eq!(is_reference_to(&i, 0x20, false, false), Some(XrefType::Call));
    assert_eq!(is_reference_to(&i, 0x1026, false, false), None);
}

#[test]
fn relative_target_wraps() {
    let i = insn(0xFFFF_FFFF_FFFF_FFF0, 5, vec![2], vec![InsnOperand::Imm(0x20)]);
    assert_eq!(is_reference_to(&i, 0x15, false, false), Some(XrefType::Call));
}

#[test]
fn jumps_only_when_requested() {
    let j = insn(0x2000, 5, vec![1], vec![InsnOperand::Imm(0x3000)]);
    assert_eq!(is_reference_to(&j, 0x3000, false, false), None);
    assert_eq!(is_reference_to(&j, 0x3000, true, false), Some(XrefType::Jump));
}

#[test]
fn indirect_memory_operand_when_requested() {
    let m = insn(0x2000, 6, vec![2], vec![InsnOperand::Mem(0x4000)]);
    assert_eq!(is_reference_to(&m, 0x4000, false, false), None);
    assert_eq!(is_reference_to(&m, 0x4000, false, true), Some(XrefType::Indirect));
}

#[test]
fn immediate_outside_call_or_jump_is_not_a_reference() {
    let mov = insn(0x2000, 5, vec![], vec![InsnOperand::Other, InsnOperand::Imm(0x4000)]);
    assert_eq!(is_reference_to(&mov, 0x4000, true, true), None);
    let no_detail = DecodedInsn { detail: None, ..insn(0x2000, 5, vec![2], vec![]) };
    assert_eq!(is_reference_to(&no_detail, 0x4000, true, true), None);
}

#[test]
fn decoder_reports_instructions_at_their_addresses() {
    let dis = Disassembler::new(Arch::X86_64).unwrap();
    let insns = dis.decode(&[0x90, 0xC3], 0x400).unwrap();
    assert_eq!(insns.len(), 2);
    assert_eq!(insns[0].address, 0x400);
    assert_eq!(insns[0].mnemonic, "nop");
    assert_eq!(insns[1].address, 0x401);
    assert_eq!(insns[1].mnemonic, "ret");
    assert_eq!(insns[1].bytes, vec![0xC3]);
}

#[test]
fn decoder_reports_call_details() {
    let dis = Disassembler::new(Arch::X86_64).unwrap();
    let insns = dis.decode(&[0xE8, 0xFB, 0xFF, 0xFF, 0xFF], 0x1000).unwrap();
    let d = insns[0].detail.as_ref().unwrap();
    assert!(d.groups.contains(&2));
    assert_eq!(d.operands, vec![InsnOperand::Imm(0x1000)]);
}

#[test]
fn call_to_own_start_is_found() {
    let mut buf = vec![0u8; 0x20];
    buf[..5].copy_from_slice(&[0xE8, 0xFB, 0xFF, 0xFF, 0xFF]);
    let r = scan_region_for_xrefs(&buf, 0x1000, 0x1000, false, false, 2, Arch::X86_64);
    assert_eq!(r.len(), 1);
    assert_eq!(r[0].address, 0x1000);
    assert_eq!(r[0].xref_type, XrefType::Call);
    assert_eq!(r[0].instruction, "call 0x1000");
    assert_eq!(r[0].context[0], "0x1000     e8 fb ff ff ff       call     0x1000");
}

#[test]
fn relative_call_with_displacement_is_found() {
    let base = 0x40_0000u64;
    let o = 7usize;
    let d: i32 = 0x1234;
    let target = (base + o as u64 + 5).wrapping_add(d as i64 as u64);
    let mut buf = vec![0x90u8; 64];
    buf[o] = 0xE8;
    buf[o + 1..o + 5].copy_from_slice(&d.to_le_bytes());
    let r = scan_region_for_xrefs(&buf, base, target, false, false, 1, Arch::X86_64);
    assert!(r.iter().any(|x| x.address == base + o as u64 && x.xref_type == XrefType::Call));
}

#[test]
fn candidate_near_the_end_is_found() {
    let mut buf = vec![0x90u8; 14];
    buf[4..9].copy_from_slice(&[0xE8, 0x00, 0x00, 0x00, 0x00]);
    let r = scan_region_for_xrefs(&buf, 0x1000, 0x1009, false, false, 1, Arch::X86_64);
    assert_eq!(r.len(), 1);
    assert_eq!(r[0].address, 0x1004);
    assert_eq!(r[0].xref_type, XrefType::Call);
}

#[test]
fn region_holding_only_the_call_is_scanned() {
    let buf = [0xE8u8, 0xFB, 0xFF, 0xFF, 0xFF];
    let r = scan_region_for_xrefs(&buf, 0x1000, 0x1000, false, false, 2, Arch::X86_64);
    assert_eq!(r.len(), 1);
    assert_eq!(r[0].address, 0x1000);
    assert_eq!(r[0].xref_type, XrefType::Call);
}

#[test]
fn candidate_inside_another_instruction_is_dropped() {
    let mut buf = vec![0x90u8; 16];
    buf[..5].copy_from_slice(&[0xE8, 0xE8, 0x00, 0x00, 0x00]);
    let r = scan_region_for_xrefs(&buf, 0x1000, 0x10ED, false, false, 0, Arch::X86_64);
    assert_eq!(r.len(), 1);
    assert_eq!(r[0].address, 0x1000);
}

#[test]
fn context_lists_the_decoded_window() {
    let dis = Disassembler::new(Arch::X86_64).unwrap();
    let buf = vec![0x90u8; 40];
    let ctx = get_instruction_context(&buf, 20, 1, 0x2000, &dis);
    assert_eq!(ctx.len(), 35);
    assert_eq!(ctx[0], "0x2005     90                   nop      ");
    let ctx = get_instruction_context(&buf, 20, 0, 0x2000, &dis);
    assert_eq!(ctx.len(), 15);
    assert_eq!(ctx[0], "0x2014     90                   nop      ");
}
