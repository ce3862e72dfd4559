//! Extraction of correctness statements from a linked ELF image.
//!
//! The code generator produces [`code::LinkedCode`]; the ELF writer turns it into a file.
//! [`elf::ElfProof`] ties the two together: it cuts the file into procedures, constants, blocks
//! and instructions, lists the procedures in the order in which they are to be proved, and
//! checks that the control flow of each of them can be proved block by block.
pub mod assembly;
pub mod block_tree;
pub mod blocks;
pub mod check;
pub mod code;
pub mod context;
pub mod elf;
pub mod ids;
pub mod layout_laws;
pub mod mir;
pub mod procs;
pub mod soundness;
pub mod tree_laws;
