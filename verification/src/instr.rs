//! The instruction codec: packing and unpacking of a node's control byte.
//!
//! A control byte carries three boolean facets in its low three bits and a
//! payload length in its high five bits:
//!
//! | opcode (bits 0-2) | word? | children? | last sibling? | validity  |
//! |-------------------|-------|-----------|---------------|-----------|
//! | 000               | no    | no        | no            | malformed |
//! | 001               | no    | no        | yes           | malformed |
//! | 010               | no    | yes       | no            | valid     |
//! | 011               | no    | yes       | yes           | valid     |
//! | 100               | yes   | no        | no            | valid     |
//! | 101               | yes   | no        | yes           | valid     |
//! | 110               | yes   | yes       | no            | valid     |
//! | 111               | yes   | yes       | yes           | valid     |
//!
//! A node that neither terminates a word nor has descendants is a dead end
//! that a well-formed program never contains, so opcodes 000 and 001 are
//! rejected by the traversal engine.

use vstd::prelude::*;

verus! {

/// One node descriptor: a control byte as found in the program buffer.
#[derive(Clone, Copy, PartialEq, Eq, Structural)]
pub struct Instr(pub u8);

/// The eight opcodes, named after their mnemonic letter and the facet tuple
/// (terminates-word, has-descendants, is-last-sibling) they encode.
#[allow(non_camel_case_types)]
#[derive(Clone, Copy)]
pub enum Instruction {
    S_NotWordNoChildrenNotLast,
    T_NotWordNoChildrenIsLast,
    U_NotWordHasChildrenNotLast,
    V_NotWordHasChildrenIsLast,
    W_IsWordNoChildrenNotLast,
    X_IsWordNoChildrenIsLast,
    Y_IsWordHasChildrenNotLast,
    Z_IsWordHasChildrenIsLast,
}

impl Instruction {
    /// The opcode's value, per the table above.
    pub open spec fn spec_to_u8(self) -> u8 {
        match self {
            Instruction::S_NotWordNoChildrenNotLast => 0x00,
            Instruction::T_NotWordNoChildrenIsLast => 0x01,
            Instruction::U_NotWordHasChildrenNotLast => 0x02,
            Instruction::V_NotWordHasChildrenIsLast => 0x03,
            Instruction::W_IsWordNoChildrenNotLast => 0x04,
            Instruction::X_IsWordNoChildrenIsLast => 0x05,
            Instruction::Y_IsWordHasChildrenNotLast => 0x06,
            Instruction::Z_IsWordHasChildrenIsLast => 0x07,
        }
    }

    pub fn to_u8(&self) -> (r: u8)
        ensures
            r == self.spec_to_u8(),
    {
        match self {
            Instruction::S_NotWordNoChildrenNotLast => 0x00,
            Instruction::T_NotWordNoChildrenIsLast => 0x01,
            Instruction::U_NotWordHasChildrenNotLast => 0x02,
            Instruction::V_NotWordHasChildrenIsLast => 0x03,
            Instruction::W_IsWordNoChildrenNotLast => 0x04,
            Instruction::X_IsWordNoChildrenIsLast => 0x05,
            Instruction::Y_IsWordHasChildrenNotLast => 0x06,
            Instruction::Z_IsWordHasChildrenIsLast => 0x07,
        }
    }
}

impl Instr {
    /// The payload length encoded in the high five bits: 0 to 31 bytes.
    pub open spec fn spec_len(self) -> int {
        (self.0 >> 3) as int
    }

    /// Whether the node terminates a word (opcode bit 2).
    pub open spec fn spec_is_word(self) -> bool {
        self.0 & 0x04 != 0
    }

    /// Whether child nodes follow this one in the buffer (opcode bit 1).
    pub open spec fn spec_has_children(self) -> bool {
        self.0 & 0x02 != 0
    }

    /// Whether this node is the last sibling at its level (opcode bit 0).
    pub open spec fn spec_is_last(self) -> bool {
        self.0 & 0x01 != 0
    }

    /// A control byte is valid unless its node would be a dead end:
    /// opcodes 000 and 001 neither terminate a word nor have descendants.
    pub open spec fn spec_is_valid(self) -> bool {
        self.spec_is_word() || self.spec_has_children()
    }

    /// Packs a payload length and an opcode into a control byte.
    pub fn from_len_instr(len: u8, instr: Instruction) -> (r: Instr)
        requires
            len <= 31,
        ensures
            r.0 == instr.spec_to_u8() | (len << 3),
            r.spec_len() == len,
            r.spec_is_word() == (instr.spec_to_u8() & 0x04 != 0),
            r.spec_has_children() == (instr.spec_to_u8() & 0x02 != 0),
            r.spec_is_last() == (instr.spec_to_u8() & 0x01 != 0),
    {
        let op = instr.to_u8();
        let r = Instr(op | (len << 3));
        proof {
            assert((op | (len << 3)) >> 3 == len && ((op | (len << 3)) & 0x04 != 0) == (op & 0x04
                != 0) && ((op | (len << 3)) & 0x02 != 0) == (op & 0x02 != 0) && ((op | (len << 3))
                & 0x01 != 0) == (op & 0x01 != 0)) by (bit_vector)
                requires
                    op <= 7 && len <= 31,
            ;
        }
        r
    }

    /// The opcode in the low three bits, as an `Instruction`.
    pub fn instr(&self) -> (r: Instruction)
        ensures
            r.spec_to_u8() == self.0 & 0x07,
    {
        let op = self.0 & 0x07;
        proof {
            let b = self.0;
            assert(b & 0x07 <= 7) by (bit_vector);
        }
        if op == 0 {
            Instruction::S_NotWordNoChildrenNotLast
        } else if op == 1 {
            Instruction::T_NotWordNoChildrenIsLast
        } else if op == 2 {
            Instruction::U_NotWordHasChildrenNotLast
        } else if op == 3 {
            Instruction::V_NotWordHasChildrenIsLast
        } else if op == 4 {
            Instruction::W_IsWordNoChildrenNotLast
        } else if op == 5 {
            Instruction::X_IsWordNoChildrenIsLast
        } else if op == 6 {
            Instruction::Y_IsWordHasChildrenNotLast
        } else {
            Instruction::Z_IsWordHasChildrenIsLast
        }
    }

    pub fn is_word(&self) -> (r: bool)
        ensures
            r == self.spec_is_word(),
    {
        self.0 & 0x04 != 0
    }

    pub fn has_children(&self) -> (r: bool)
        ensures
            r == self.spec_has_children(),
    {
        self.0 & 0x02 != 0
    }

    pub fn is_last(&self) -> (r: bool)
        ensures
            r == self.spec_is_last(),
    {
        self.0 & 0x01 != 0
    }

    pub fn is_valid(&self) -> (r: bool)
        ensures
            r == self.spec_is_valid(),
    {
        proof {
            let b = self.0;
            assert((b & 0x06 != 0) == (b & 0x04 != 0 || b & 0x02 != 0)) by (bit_vector);
        }
        self.0 & 0x06 != 0
    }

    pub fn len_u8(&self) -> (r: u8)
        ensures
            r == self.spec_len(),
    {
        self.0 >> 3
    }

    pub fn len(&self) -> (r: usize)
        ensures
            r == self.spec_len(),
            r <= 31,
    {
        proof {
            let b = self.0;
            assert(b >> 3 <= 31) by (bit_vector);
        }
        (self.0 >> 3) as usize
    }
}

} // verus!
