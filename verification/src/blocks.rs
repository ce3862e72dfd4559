//! The physical blocks of a procedure, and their instructions.
use crate::block_tree::BlockProof;
use crate::code::{InstLayout, PCode, VInst};
use crate::ids::{Idx, VBlockId};
use crate::procs::Proc;
use vstd::prelude::*;
use vstd::slice::slice_subrange;

verus! {

broadcast use vstd::std_specs::hash::group_hash_axioms;

/// An iterator over the blocks in a procedure in assembly order.
#[derive(Debug)]
pub struct AssemblyBlocks<'a> {
    ctx: &'a Proc<'a>,
    next: usize,
    end: usize,
}

/// A handle to an individual block in a procedure.
#[derive(Debug)]
pub struct VBlock<'a> {
    ctx: &'a Proc<'a>,
    start: u32,
    content: &'a [u8],
    insts: &'a [VInst],
}

/// An iterator over the instructions in the block.
#[derive(Debug)]
pub struct InstIter<'a> {
    ctx: &'a Proc<'a>,
    start: u32,
    insts: &'a [VInst],
}

/// A reference to a physical instruction.
#[derive(Debug)]
pub struct Inst<'a> {
    /// The procedure that the instruction belongs to.
    pub ctx: &'a Proc<'a>,
    /// The address of the instruction relative to the function start.
    pub start: u32,
    /// The layout of the instruction.
    pub layout: InstLayout,
    /// The physical instruction
    pub inst: &'a VInst,
}

impl PCode {
    /// Where block `i` starts, relative to the procedure.
    pub open spec fn block_start(self, i: int) -> int {
        self.block_addr@[i] as int
    }

    /// Where block `i` ends: where the next block starts, or at the end of the code.
    pub open spec fn block_end(self, i: int) -> int {
        if i + 1 < self.block_addr@.len() {
            self.block_addr@[i + 1] as int
        } else {
            self.len as int
        }
    }

    /// Whether block `i` is there, and its bytes lie in code of `size` bytes.
    pub open spec fn block_fits(self, i: int, size: nat) -> bool {
        &&& 0 <= i < self.block_addr@.len()
        &&& i < self.blocks@.len()
        &&& self.block_start(i) <= self.block_end(i) <= size
        &&& self.blocks@[i].0 <= self.blocks@[i].1 <= self.insts@.len()
    }
}

impl<'a> Proc<'a> {
    /// Whether block `i` of the procedure is there, and its bytes lie in the procedure.
    pub open spec fn has_block(self, i: int) -> bool {
        self.proc.block_fits(i, self.content@.len())
    }

    /// Whether block `i` of the procedure is there, and its bytes lie in the procedure.
    pub fn block_ready(&self, i: usize) -> (r: bool)
        ensures
            r == self.has_block(i as int),
    {
        if i >= self.proc.block_addr.len() || i >= self.proc.blocks.len() {
            return false;
        }
        let start: u32 = self.proc.block_addr.0[i];
        let end: u32 = if i + 1 < self.proc.block_addr.len() {
            self.proc.block_addr.0[i + 1]
        } else {
            self.proc.len
        };
        let (inst_start, inst_end): (usize, usize) = self.proc.blocks.0[i];
        start <= end && end as usize <= self.content.len() && inst_start <= inst_end && inst_end
            <= self.proc.insts.len()
    }

    /// An iterator over the blocks of the procedure in assembly order.
    #[must_use]
    pub fn assembly_blocks(&self) -> (r: AssemblyBlocks<'_>)
        ensures
            r.proc() == *self,
            r.index() == 0,
            r.count() == self.proc.blocks@.len(),
    {
        AssemblyBlocks { ctx: self, next: 0, end: self.proc.blocks.len() }
    }

    /// Get a (physical) block by block ID.
    #[must_use]
    pub fn vblock(&self, id: VBlockId) -> (r: VBlock<'_>)
        requires
            self.has_block(id.0 as int),
        ensures
            r.shows(*self, id.0 as int),
    {
        VBlock::new(self, id.into_usize())
    }
}

impl<'a> BlockProof<'a> {
    /// The physical block associated to this proof, or `None` if this is a virtual-only block.
    #[must_use]
    pub fn vblock(&self) -> (r: Option<VBlock<'a>>)
        requires
            self.proc().proc.block_map@.contains_key(self.block_id().0) ==> self.proc().has_block(
                self.proc().proc.block_map@[self.block_id().0].0 as int,
            ),
        ensures
            self.proc().proc.block_map@.contains_key(self.block_id().0) ==> {
                &&& r is Some
                &&& r->0.shows(
                    self.proc(),
                    self.proc().proc.block_map@[self.block_id().0].0 as int,
                )
            },
            !self.proc().proc.block_map@.contains_key(self.block_id().0) ==> r is None,
    {
        let ctx = self.context();
        match ctx.proc.block_map.get(&self.id().0) {
            Some(id) => Some(VBlock::new(ctx, id.into_usize())),
            None => None,
        }
    }
}

impl<'a> AssemblyBlocks<'a> {
    /// The procedure whose blocks are listed.
    pub closed spec fn proc(self) -> Proc<'a> {
        *self.ctx
    }

    /// The block that comes next.
    pub closed spec fn index(self) -> int {
        self.next as int
    }

    /// The number of blocks of the procedure.
    pub closed spec fn count(self) -> int {
        self.end as int
    }

    /// The next block.
    pub fn next(&mut self) -> (r: Option<VBlock<'a>>)
        requires
            old(self).index() < old(self).count() ==> old(self).proc().has_block(
                old(self).index(),
            ),
        ensures
            final(self).proc() == old(self).proc(),
            final(self).count() == old(self).count(),
            old(self).index() >= old(self).count() ==> r is None && final(self).index() == old(
                self,
            ).index(),
            old(self).index() < old(self).count() ==> {
                &&& r is Some
                &&& r->0.shows(old(self).proc(), old(self).index())
                &&& final(self).index() == old(self).index() + 1
            },
    {
        if self.next >= self.end {
            return None;
        }
        let id: usize = self.next;
        self.next = id + 1;
        Some(VBlock::new(self.ctx, id))
    }

    /// Whether the next block, if there is one, is there and lies in the procedure.
    pub fn ready(&self) -> (r: bool)
        ensures
            r <==> self.index() < self.count() ==> self.proc().has_block(self.index()),
    {
        self.next >= self.end || self.ctx.block_ready(self.next)
    }

    /// The number of blocks that are still to come.
    pub fn len(&self) -> (r: usize)
        ensures
            self.index() <= self.count() ==> r == self.count() - self.index(),
            self.index() > self.count() ==> r == 0,
    {
        if self.next <= self.end {
            self.end - self.next
        } else {
            0
        }
    }

    /// The number of blocks that are still to come, as a lower and an upper bound.
    pub fn size_hint(&self) -> (r: (usize, Option<usize>))
        ensures
            self.index() <= self.count() ==> r.0 == self.count() - self.index(),
            self.index() > self.count() ==> r.0 == 0,
            r.1 == Some(r.0),
    {
        let n: usize = self.len();
        (n, Some(n))
    }
}

impl<'a> VBlock<'a> {
    /// The procedure that the block belongs to.
    pub closed spec fn proc(self) -> Proc<'a> {
        *self.ctx
    }

    /// Where the block starts, relative to the procedure.
    pub closed spec fn offset(self) -> u32 {
        self.start
    }

    /// The bytes of the block.
    pub closed spec fn bytes(self) -> Seq<u8> {
        self.content@
    }

    /// The instructions of the block.
    pub closed spec fn inst_seq(self) -> Seq<VInst> {
        self.insts@
    }

    /// Whether this is block `i` of a procedure.
    pub open spec fn shows(self, proc: Proc<'a>, i: int) -> bool {
        &&& self.proc() == proc
        &&& self.offset() == proc.proc.block_start(i)
        &&& self.bytes() == proc.content@.subrange(
            proc.proc.block_start(i),
            proc.proc.block_end(i),
        )
        &&& self.inst_seq() == proc.proc.insts@.subrange(
            proc.proc.blocks@[i].0 as int,
            proc.proc.blocks@[i].1 as int,
        )
    }

    /// Block `id` of a procedure.
    fn new(ctx: &'a Proc<'a>, id: usize) -> (r: Self)
        requires
            ctx.has_block(id as int),
        ensures
            r.shows(*ctx, id as int),
    {
        let count: usize = ctx.proc.block_addr.len();
        let start: u32 = ctx.proc.block_addr.0[id];
        let end: u32 = if id + 1 < count {
            ctx.proc.block_addr.0[id + 1]
        } else {
            ctx.proc.len
        };
        let (inst_start, inst_end): (usize, usize) = ctx.proc.blocks.0[id];
        VBlock {
            ctx,
            start,
            content: slice_subrange(ctx.content, start as usize, end as usize),
            insts: slice_subrange(ctx.proc.insts.as_slice(), inst_start, inst_end),
        }
    }

    /// The start of this block relative to the function start.
    #[must_use]
    pub fn start(&self) -> (r: u32)
        ensures
            r == self.offset(),
    {
        self.start
    }

    /// The byte data for this block.
    #[must_use]
    pub fn content(&self) -> (r: &'a [u8])
        ensures
            r@ == self.bytes(),
    {
        self.content
    }

    /// An iterator over the instructions in the block.
    #[must_use]
    pub fn insts(&self) -> (r: InstIter<'a>)
        ensures
            r.proc() == self.proc(),
            r.addr() == self.offset(),
            r.rest() == self.inst_seq(),
    {
        InstIter { ctx: self.ctx, start: self.start, insts: self.insts }
    }
}

impl<'a> InstIter<'a> {
    /// The procedure that the instructions belong to.
    pub closed spec fn proc(self) -> Proc<'a> {
        *self.ctx
    }

    /// Where the next instruction starts, relative to the procedure.
    pub closed spec fn addr(self) -> u32 {
        self.start
    }

    /// The instructions that are still to come.
    pub closed spec fn rest(self) -> Seq<VInst> {
        self.insts@
    }

    /// Whether the next instruction, if there is one, ends at an address.
    pub open spec fn can_step(self) -> bool {
        self.rest().len() > 0 ==> self.addr() + self.rest()[0].layout.bytes <= u32::MAX
    }

    /// Whether the next instruction, if there is one, ends at an address.
    pub fn ready(&self) -> (r: bool)
        ensures
            r == self.can_step(),
    {
        self.insts.len() == 0 || self.insts[0].layout_inst().len() as u32 <= u32::MAX - self.start
    }

    /// The next instruction.
    pub fn next(&mut self) -> (r: Option<Inst<'a>>)
        requires
            old(self).can_step(),
        ensures
            final(self).proc() == old(self).proc(),
            old(self).rest().len() == 0 ==> {
                &&& r is None
                &&& final(self).rest() == old(self).rest()
                &&& final(self).addr() == old(self).addr()
            },
            old(self).rest().len() > 0 ==> {
                &&& r is Some
                &&& *r->0.ctx == old(self).proc()
                &&& r->0.start == old(self).addr()
                &&& r->0.layout == old(self).rest()[0].layout
                &&& *r->0.inst == old(self).rest()[0]
                &&& final(self).rest() == old(self).rest().skip(1)
                &&& final(self).addr() == old(self).addr() + old(self).rest()[0].layout.bytes
            },
    {
        if self.insts.len() == 0 {
            return None;
        }
        let inst: &'a VInst = &self.insts[0];
        let layout = inst.layout_inst();
        let start: u32 = self.start;
        self.start = start + layout.len() as u32;
        self.insts = slice_subrange(self.insts, 1, self.insts.len());
        assert(self.insts@ =~= old(self).insts@.skip(1));
        Some(Inst { ctx: self.ctx, start, layout, inst })
    }

    /// The number of instructions that are still to come.
    pub fn len(&self) -> (r: usize)
        ensures
            r == self.rest().len(),
    {
        self.insts.len()
    }

    /// The number of instructions that are still to come, as a lower and an upper bound.
    pub fn size_hint(&self) -> (r: (usize, Option<usize>))
        ensures
            r.0 == self.rest().len(),
            r.1 == Some(r.0),
    {
        let n: usize = self.len();
        (n, Some(n))
    }
}

impl<'a> Inst<'a> {
    /// The byte data for this instruction.
    pub fn content(&self) -> (r: &'a [u8])
        requires
            self.start + self.layout.bytes <= self.ctx.content@.len(),
        ensures
            r@ == self.ctx.content@.subrange(
                self.start as int,
                self.start + self.layout.bytes,
            ),
    {
        let size: usize = self.ctx.content.len();
        let start: usize = self.start as usize;
        assert(start + self.layout.bytes <= size);
        slice_subrange(self.ctx.content, start, start + self.layout.len() as usize)
    }
}

/// The bytes of the first `n` blocks of a procedure, one after the other.
pub open spec fn joined_blocks(proc: PCode, content: Seq<u8>, n: nat) -> Seq<u8>
    decreases n,
{
    if n == 0 {
        Seq::empty()
    } else {
        let i = n - 1;
        joined_blocks(proc, content, i as nat) + content.subrange(
            proc.block_start(i),
            proc.block_end(i),
        )
    }
}

/// The blocks of a procedure, in assembly order, make up its code without the padding, if the
/// first block starts at the start of the procedure.
pub proof fn law_blocks_join(proc: PCode, content: Seq<u8>)
    requires
        proc.block_addr@.len() > 0,
        proc.block_start(0) == 0,
        forall|i: int|
            0 <= i < proc.block_addr@.len() ==> #[trigger] proc.block_fits(i, content.len()),
    ensures
        joined_blocks(proc, content, proc.block_addr@.len()) == content.take(proc.len as int),
{
    let count = proc.block_addr@.len();
    lemma_blocks_join(proc, content, count);
    assert(proc.block_fits(count - 1, content.len()));
    assert(content.subrange(0, proc.len as int) =~= content.take(proc.len as int));
}

/// The first blocks of a procedure make up its code up to the end of the last one of them.
proof fn lemma_blocks_join(proc: PCode, content: Seq<u8>, n: nat)
    requires
        0 < n <= proc.block_addr@.len(),
        proc.block_start(0) == 0,
        forall|i: int|
            0 <= i < proc.block_addr@.len() ==> #[trigger] proc.block_fits(i, content.len()),
    ensures
        joined_blocks(proc, content, n) == content.subrange(0, proc.block_end(n - 1)),
    decreases n,
{
    let i = n - 1;
    assert(proc.block_fits(i, content.len()));
    if i == 0 {
        assert(joined_blocks(proc, content, 0) == Seq::<u8>::empty());
    } else {
        lemma_blocks_join(proc, content, i as nat);
        assert(proc.block_fits(i - 1, content.len()));
    }
    assert(joined_blocks(proc, content, n) =~= content.subrange(0, proc.block_end(i)));
}

/// Where instruction `k` of a block that starts at `start` starts.
pub open spec fn inst_addr(start: int, insts: Seq<VInst>, k: nat) -> int
    decreases k,
{
    if k == 0 {
        start
    } else {
        inst_addr(start, insts, (k - 1) as nat) + insts[k - 1].layout.bytes
    }
}

/// The bytes of the first `k` instructions of a block, one after the other.
pub open spec fn joined_insts(content: Seq<u8>, start: int, insts: Seq<VInst>, k: nat) -> Seq<u8>
    decreases k,
{
    if k == 0 {
        Seq::empty()
    } else {
        joined_insts(content, start, insts, (k - 1) as nat) + content.subrange(
            inst_addr(start, insts, (k - 1) as nat),
            inst_addr(start, insts, k),
        )
    }
}

/// The instructions of a block make up the bytes from the start of the block to the end of the
/// last instruction.
pub proof fn law_insts_join(content: Seq<u8>, start: int, insts: Seq<VInst>, k: nat)
    requires
        0 <= start,
        k <= insts.len(),
        inst_addr(start, insts, k) <= content.len(),
    ensures
        start <= inst_addr(start, insts, k),
        joined_insts(content, start, insts, k) == content.subrange(
            start,
            inst_addr(start, insts, k),
        ),
    decreases k,
{
    if k > 0 {
        law_insts_join(content, start, insts, (k - 1) as nat);
    }
    assert(joined_insts(content, start, insts, k) =~= content.subrange(
        start,
        inst_addr(start, insts, k),
    ));
}

/// Stepping over the first instruction leaves the addresses of those that follow unchanged: an
/// [`InstIter`] lists instruction `k` at the address `inst_addr` of the whole block.
pub proof fn law_inst_step(start: int, insts: Seq<VInst>, k: nat)
    requires
        k < insts.len(),
    ensures
        inst_addr(start + insts[0].layout.bytes, insts.skip(1), k) == inst_addr(
            start,
            insts,
            k + 1,
        ),
    decreases k,
{
    reveal_with_fuel(inst_addr, 2);
    if k > 0 {
        law_inst_step(start, insts, (k - 1) as nat);
    }
}

} // verus!
