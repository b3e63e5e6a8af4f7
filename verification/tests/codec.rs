use t9vm::Instr;
use t9vm::Instruction;

#[test]
fn opcode_values() {
    assert_eq!(Instruction::S_NotWordNoChildrenNotLast.to_u8(), 0b000);
    assert_eq!(Instruction::T_NotWordNoChildrenIsLast.to_u8(), 0b001);
    assert_eq!(Instruction::U_NotWordHasChildrenNotLast.to_u8(), 0b010);
    assert_eq!(Instruction::V_NotWordHasChildrenIsLast.to_u8(), 0b011);
    assert_eq!(Instruction::W_IsWordNoChildrenNotLast.to_u8(), 0b100);
    assert_eq!(Instruction::X_IsWordNoChildrenIsLast.to_u8(), 0b101);
    assert_eq!(Instruction::Y_IsWordHasChildrenNotLast.to_u8(), 0b110);
    assert_eq!(Instruction::Z_IsWordHasChildrenIsLast.to_u8(), 0b111);
}

#[test]
fn facets_follow_the_opcode_table() {
    let rows: [(u8, bool, bool, bool); 8] = [
        (0b000, false, false, false),
        (0b001, false, false, true),
        (0b010, false, true, false),
        (0b011, false, true, true),
        (0b100, true, false, false),
        (0b101, true, false, true),
        (0b110, true, true, false),
        (0b111, true, true, true),
    ];
    for &(op, word, children, last) in rows.iter() {
        let i = Instr(op | (13 << 3));
        assert_eq!(i.is_word(), word);
        assert_eq!(i.has_children(), children);
        assert_eq!(i.is_last(), last);
        assert_eq!(i.is_valid(), word || children);
        assert_eq!(i.len(), 13);
        assert_eq!(i.len_u8(), 13);
    }
}

#[test]
fn dead_end_opcodes_are_invalid() {
    assert!(!Instr(0b000).is_valid());
    assert!(!Instr(0b001).is_valid());
    for op in 2u8..8 {
        assert!(Instr(op).is_valid());
    }
}

#[test]
fn pack_and_unpack_round_trip() {
    let packed = Instr::from_len_instr(31, Instruction::Y_IsWordHasChildrenNotLast);
    assert_eq!(packed.0, 0b11111_110);
    assert_eq!(packed.len(), 31);
    assert!(packed.is_word());
    assert!(packed.has_children());
    assert!(!packed.is_last());
    assert_eq!(packed.instr().to_u8(), 0b110);

    let zero = Instr::from_len_instr(0, Instruction::T_NotWordNoChildrenIsLast);
    assert_eq!(zero.0, 0b00000_001);
    assert_eq!(zero.len(), 0);
    assert!(!zero.is_word());
    assert!(!zero.has_children());
    assert!(zero.is_last());
}
