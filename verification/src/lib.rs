//! Decoder for a compact binary encoding of a prefix trie.
//!
//! A trie is shipped as a flat byte buffer laid out in pre-order: each node is
//! one control byte, an optional priority byte, and up to 31 payload bytes
//! (the edge label). The traversal engine walks that buffer with three small
//! stacks and a read cursor, handing out the stored words one at a time.

pub mod instr;
pub mod stack;
pub mod trie;
pub mod vm;

pub use instr::Instr;
pub use instr::Instruction;
pub use stack::Stack;
pub use stack::StackError;
pub use vm::T9Error;
pub use vm::T9Vm;
