//! Linked machine code, and where its parts lie in memory.
use crate::ids::{IdxVec, ProcId, Symbol, VBlockId};
use crate::mir::Cfg;
use std::collections::HashMap;
use vstd::prelude::*;

verus! {

/// The virtual address at which the program segment starts.
pub const TEXT_START: u32 = 0x40_0078;

/// The alignment, in bytes, of the procedures that follow the init function.
pub const FUNCTION_ALIGN: u32 = 16;

/// If true, total correctness is proved, so all recursions and loops must come with a variant
/// that decreases on recursive calls. If false, partial correctness is proved, and variants are
/// not required.
pub const VERIFY_TERMINATION: bool = true;

/// How an instruction is laid out in memory.
#[derive(Clone, Copy, Debug, PartialEq, Eq, Structural)]
pub struct InstLayout {
    /// The number of bytes that the instruction takes.
    pub bytes: u8,
}

impl InstLayout {
    /// The number of bytes that the instruction takes.
    pub fn len(&self) -> (r: u8)
        ensures
            r == self.bytes,
    {
        self.bytes
    }
}

/// A physical instruction.
#[derive(Clone, Copy, Debug, PartialEq, Eq, Structural)]
pub struct VInst {
    /// How the instruction is laid out.
    pub layout: InstLayout,
}

impl VInst {
    /// How the instruction is laid out.
    pub fn layout_inst(&self) -> (r: InstLayout)
        ensures
            r == self.layout,
    {
        self.layout
    }
}

/// The assembled code of a procedure.
#[derive(Debug)]
pub struct PCode {
    /// The instructions.
    pub insts: Vec<VInst>,
    /// The physical block of a basic block, by its number, for those that have one.
    pub block_map: HashMap<u32, VBlockId>,
    /// The first instruction of each physical block, and the one after its last.
    pub blocks: IdxVec<VBlockId, (usize, usize)>,
    /// Where each physical block starts, relative to the procedure.
    pub block_addr: IdxVec<VBlockId, u32>,
    /// The length of the code in bytes, without padding.
    pub len: u32,
}

/// Where the value of a constant is found.
#[derive(Clone, Copy, Debug, PartialEq, Eq, Structural)]
pub enum ConstRef {
    /// The value itself, which the code holds.
    Value(u64),
    /// The offset of the value in the read-only section.
    Ptr(u32),
}

/// The constants of a program.
#[derive(Debug)]
pub struct ConstData {
    /// The constants of the read-only section, in the order in which they are written.
    pub ordered: Vec<Symbol>,
    /// The size of each constant and where it is found, by the number of its name.
    pub map: HashMap<u32, (u32, ConstRef)>,
}

/// A linked program.
#[derive(Debug)]
pub struct LinkedCode {
    /// The control flow graph of each function, by the number of its name.
    pub mir: HashMap<u32, Cfg>,
    /// The init function.
    pub init: (Cfg, PCode),
    /// The names of the functions.
    pub func_names: IdxVec<ProcId, Symbol>,
    /// The functions, each with the virtual address at which it starts.
    pub funcs: IdxVec<ProcId, (u32, PCode)>,
    /// The functions in the order in which they are to be proved.
    pub postorder: Vec<ProcId>,
    /// The constants.
    pub consts: ConstData,
    /// The size of the text section; the read-only section follows it.
    pub text_size: u32,
}

/// The first multiple of [`FUNCTION_ALIGN`] at or after an address.
pub open spec fn align_up(addr: int) -> int {
    (addr + FUNCTION_ALIGN - 1) / (FUNCTION_ALIGN as int) * FUNCTION_ALIGN
}

/// The address after code of length `len` at `start`, with its trailing padding.
pub(crate) fn padded_end(start: u32, len: u32) -> (r: u32)
    requires
        start + len + FUNCTION_ALIGN <= u32::MAX,
    ensures
        r == align_up(start + len),
{
    let last: u32 = start + len + FUNCTION_ALIGN - 1;
    assert(last & !15u32 == last / 16 * 16) by (bit_vector);
    let low: u32 = FUNCTION_ALIGN - 1;
    last & !low
}

/// Trailing padding is shorter than [`FUNCTION_ALIGN`], and ends at a multiple of it.
pub proof fn law_padding(addr: int)
    ensures
        addr <= align_up(addr) < addr + FUNCTION_ALIGN,
        align_up(addr) % (FUNCTION_ALIGN as int) == 0,
{
}

impl LinkedCode {
    /// Whether the procedure `id` is there, with a name and a control flow graph. `None` is the
    /// init function.
    pub open spec fn has_proc(self, id: Option<ProcId>) -> bool {
        match id {
            None => true,
            Some(f) => {
                &&& f.0 < self.funcs@.len()
                &&& f.0 < self.func_names@.len()
                &&& self.mir@.contains_key(self.func_names@[f.0 as int].0)
            },
        }
    }

    /// The code of the procedure `id`.
    pub open spec fn pcode(self, id: Option<ProcId>) -> PCode {
        match id {
            None => self.init.1,
            Some(f) => self.funcs@[f.0 as int].1,
        }
    }

    /// The control flow graph of the procedure `id`.
    pub open spec fn cfg(self, id: Option<ProcId>) -> Cfg {
        match id {
            None => self.init.0,
            Some(f) => self.mir@[self.func_names@[f.0 as int].0],
        }
    }

    /// The virtual address at which the procedure `id` starts, as the linker has recorded it.
    pub open spec fn proc_start(self, id: Option<ProcId>) -> u32 {
        match id {
            None => TEXT_START,
            Some(f) => self.funcs@[f.0 as int].0,
        }
    }

    /// Whether code of length `len` at the address `start`, with its trailing padding, lies in
    /// a segment of `size` bytes.
    pub open spec fn code_fits(start: int, len: u32, size: nat) -> bool {
        &&& TEXT_START <= start
        &&& start + len + FUNCTION_ALIGN <= u32::MAX
        &&& align_up(start + len) - TEXT_START <= size
    }

    /// Whether the procedure `id` is there and lies in a segment of `size` bytes.
    pub open spec fn proc_fits(self, id: Option<ProcId>, size: nat) -> bool {
        &&& self.has_proc(id)
        &&& Self::code_fits(self.proc_start(id) as int, self.pcode(id).len, size)
    }

    /// The bytes of a segment between two virtual addresses.
    pub open spec fn bytes(segment: Seq<u8>, start: int, end: int) -> Seq<u8> {
        segment.subrange(start - TEXT_START, end - TEXT_START)
    }
}

} // verus!
