//! Tree-structured proofs of correctness of the blocks of a procedure.
use crate::check::{
    block_ok, check_body, check_group, check_one, check_seq, check_tree, fresh, jump_ok, jumps_ok,
    left_by_seq, left_by_tree, mark, tree_size, trees_size,
};
use crate::context::{context_clone, context_get, context_insert, entries, BlockContext};
use crate::ids::{BlockId, Idx};
use crate::mir::{lemma_region, BasicBlock, BlockTree, Cfg, Flow, Terminator};
use crate::procs::Proc;
use vstd::prelude::*;
use vstd::slice::slice_subrange;

verus! {

/// A tree-structured proof of correctness of a block.
///
/// The idea here is that most blocks only jump downward, so we can prove the correctness of
/// blocks from the bottom up, i.e. if a later block terminates successfully then a block that
/// does something and then goes to the later block also terminates successfully, but some
/// blocks, in particular loops and labels, participate in cycles, and the front end associates
/// decreasing variants to back edges in these cycles. This enables a proof strategy where we
/// perform an induction proof at each cycle, with the inductive hypothesis acting as a label
/// that we can later jump to.
///
/// For example, suppose we have a CFG like so:
/// ```text
///  .>...  .-> C---\     __
/// |      /        v    v  \
/// A --> B -> D -> E -> F -^
/// ^                    v
///  \------------------ G
/// ```
/// An example of code that would cause a CFG like this is:
/// ```text
/// while A variant v1 {
///   if B { C } else { D }
///   E;
///   while F variant v2 {
///     continue (h: v2' < v2)
///   }
///   G;
///   continue (h: v1' < v1)
/// }
/// ```
/// The back-edges are `F -> F` and `G -> A` here, marked in the code using explicit `continue`
/// calls. These `continue` calls carry variants, so we can be sure that the variant decreases
/// each time around the loop. Thus we obtain the following proof sketch:
///
/// ```text
/// 0.  running ... is ok
/// 1.  | Assume: running A with v1 < n is ok
/// 2.  | running G is ok, by (1)
/// 3.  | | Assume: running F with v2 < m is ok
/// 4.  | | running F with v2 = m is ok by (3)
/// 5.  | running F is ok by (4) and induction on m
/// 6.  | running E is ok by (5)
/// 7.  | running D is ok by (6)
/// 8.  | running C is ok by (6)
/// 9.  | running B is ok by (7, 8)
/// 10. | running A is ok with v1 = n by (0, 9)
/// 11. running A is ok by (10) and induction on n
/// ```
///
/// In general, we either prove that a block is ok because all its successors are ok, or we do
/// an induction on the variant value in the case where this node has a back-edge pointing to
/// it. Inductions can be nested, like in this case, and they can also be mutual inductions,
/// where we assume that calling multiple blocks is okay for some shared variant value (this
/// comes up when proving programs using a label group with multiple labels).
#[derive(Debug)]
pub enum BlockProofTree<'a> {
    /// A proof by induction.
    Induction(BlockTreeInduction<'a>),
    /// A sequence of block proofs in dependency order.
    Sequence(BlockTreeIter<'a>),
    /// The proof of a single block.
    One(BlockProof<'a>),
}

/// An induction step in a block tree proof.
#[derive(Clone, Copy, Debug)]
pub struct BlockTreeInduction<'a> {
    ctx: &'a Proc<'a>,
    labels: &'a [BlockId],
    rest: &'a [BlockTree],
}

/// An iterator over block tree proofs, in forward dependency order (i.e. working backward from
/// the end of the function).
#[derive(Debug)]
pub struct BlockTreeIter<'a> {
    ctx: &'a Proc<'a>,
    seq: &'a [BlockTree],
    stack: Vec<(bool, BlockId)>,
}

/// A proof for an individual block.
#[derive(Clone, Copy, Debug)]
pub struct BlockProof<'a> {
    ctx: &'a Proc<'a>,
    id: BlockId,
}

/// The blocks that a stack stands for, from its top to its bottom: an entry marked `true`
/// stands for its block, and one marked `false` for the region of its block.
pub open spec fn pending(cfg: Cfg, stack: Seq<(bool, BlockId)>) -> Seq<BlockId>
    decreases stack.len(),
{
    if stack.len() == 0 {
        Seq::empty()
    } else {
        let (done, id) = stack.last();
        (if done {
            seq![id]
        } else {
            cfg.region(id)
        }) + pending(cfg, stack.drop_last())
    }
}

/// Whether the flow from every block of a stack whose region is still to be developed comes to
/// an end.
pub open spec fn stack_ends(cfg: Cfg, stack: Seq<(bool, BlockId)>) -> bool {
    forall|i: int| 0 <= i < stack.len() && !(#[trigger] stack[i]).0 ==> cfg.ends(stack[i].1)
}

/// Follows the flow from `id` for at most `n` steps, always into the second of two branches.
/// The result is the block that is reached, and the stack with what is left behind on top: the
/// blocks passed, marked `true`, and the first branches, marked `false`.
pub open spec fn developed_within(
    cfg: Cfg,
    id: BlockId,
    stack: Seq<(bool, BlockId)>,
    n: nat,
) -> (BlockId, Seq<(bool, BlockId)>)
    decreases n,
{
    if n == 0 {
        (id, stack)
    } else {
        match cfg.flow(id) {
            Flow::Stop => (id, stack),
            Flow::Then(tgt) => developed_within(cfg, tgt, stack.push((true, id)), (n - 1) as nat),
            Flow::Branch(bl1, bl2) => developed_within(
                cfg,
                bl2,
                stack.push((true, id)).push((false, bl1)),
                (n - 1) as nat,
            ),
        }
    }
}

/// Follows the flow from `id` to where it stops, always into the second of two branches. The
/// result is the block that is reached, and the stack with what is left behind on top.
pub open spec fn developed(cfg: Cfg, id: BlockId, stack: Seq<(bool, BlockId)>) -> (
    BlockId,
    Seq<(bool, BlockId)>,
) {
    developed_within(cfg, id, stack, cfg.blocks@.len())
}

/// Where the flow stops at once, nothing is followed and nothing is left behind.
pub proof fn law_developed_stop(cfg: Cfg, id: BlockId, stack: Seq<(bool, BlockId)>)
    requires
        cfg.flow(id) is Stop,
    ensures
        developed(cfg, id, stack) == (id, stack),
{
}

/// More steps than the flow has make no difference.
proof fn lemma_developed_more(
    cfg: Cfg,
    id: BlockId,
    stack: Seq<(bool, BlockId)>,
    n: nat,
    m: nat,
)
    requires
        n <= m,
        cfg.ends_within(id, n),
    ensures
        developed_within(cfg, id, stack, m) == developed_within(cfg, id, stack, n),
    decreases n,
{
    match cfg.flow(id) {
        Flow::Stop => {},
        Flow::Then(tgt) => {
            lemma_developed_more(
                cfg,
                tgt,
                stack.push((true, id)),
                (n - 1) as nat,
                (m - 1) as nat,
            );
        },
        Flow::Branch(bl1, bl2) => {
            lemma_developed_more(
                cfg,
                bl2,
                stack.push((true, id)).push((false, bl1)),
                (n - 1) as nat,
                (m - 1) as nat,
            );
        },
    }
}

/// Following one edge first, with the block passed left behind, and the first branch too where
/// there are two, leads to the same block and leaves the same stack.
pub proof fn law_developed_step(cfg: Cfg, id: BlockId, stack: Seq<(bool, BlockId)>)
    requires
        cfg.ends(id),
    ensures
        developed(cfg, id, stack) == match cfg.flow(id) {
            Flow::Stop => (id, stack),
            Flow::Then(tgt) => developed(cfg, tgt, stack.push((true, id))),
            Flow::Branch(bl1, bl2) => developed(
                cfg,
                bl2,
                stack.push((true, id)).push((false, bl1)),
            ),
        },
{
    let n = cfg.blocks@.len();
    match cfg.flow(id) {
        Flow::Stop => {},
        Flow::Then(tgt) => {
            lemma_developed_more(cfg, tgt, stack.push((true, id)), (n - 1) as nat, n);
        },
        Flow::Branch(bl1, bl2) => {
            lemma_developed_more(
                cfg,
                bl2,
                stack.push((true, id)).push((false, bl1)),
                (n - 1) as nat,
                n,
            );
        },
    }
}

/// Developing a block keeps the stack below what it leaves behind. The flow stops at the block
/// that is reached, and the block itself is reached or is the first that is left behind.
pub proof fn law_developed_prefix(cfg: Cfg, id: BlockId, stack: Seq<(bool, BlockId)>)
    requires
        cfg.ends(id),
    ensures
        stack.len() <= developed(cfg, id, stack).1.len(),
        developed(cfg, id, stack).1.take(stack.len() as int) == stack,
        cfg.flow(developed(cfg, id, stack).0) is Stop,
        developed(cfg, id, stack).1.len() == stack.len() ==> developed(cfg, id, stack).0 == id,
        developed(cfg, id, stack).1.len() > stack.len() ==> developed(cfg, id, stack).1[
            stack.len() as int
        ] == (true, id),
    decreases cfg.region(id).len(),
{
    lemma_region(cfg, id);
    law_developed_step(cfg, id, stack);
    let (leaf, after) = developed(cfg, id, stack);
    match cfg.flow(id) {
        Flow::Stop => {
            assert(after.take(stack.len() as int) =~= stack);
        },
        Flow::Then(tgt) => {
            let pushed = stack.push((true, id));
            law_developed_prefix(cfg, tgt, pushed);
            assert(after[stack.len() as int] == after.take(pushed.len() as int)[stack.len() as int]);
            assert(after.take(stack.len() as int) =~= after.take(pushed.len() as int).take(
                stack.len() as int,
            ));
            assert(pushed.take(stack.len() as int) =~= stack);
        },
        Flow::Branch(bl1, bl2) => {
            let pushed = stack.push((true, id)).push((false, bl1));
            law_developed_prefix(cfg, bl2, pushed);
            assert(after[stack.len() as int] == after.take(pushed.len() as int)[stack.len() as int]);
            assert(after.take(stack.len() as int) =~= after.take(pushed.len() as int).take(
                stack.len() as int,
            ));
            assert(pushed.take(stack.len() as int) =~= stack);
        },
    }
}

/// The blocks of the entries of a stack that are marked `true`, from its bottom to its top.
pub open spec fn passed(stack: Seq<(bool, BlockId)>) -> Seq<BlockId>
    decreases stack.len(),
{
    if stack.len() == 0 {
        Seq::empty()
    } else {
        let (done, id) = stack.last();
        if done {
            passed(stack.drop_last()).push(id)
        } else {
            passed(stack.drop_last())
        }
    }
}

/// Whether the flow leads from `blocks[i]` to the block after it, the second of two branches.
pub open spec fn goes_on(cfg: Cfg, blocks: Seq<BlockId>, i: int) -> bool {
    match cfg.flow(blocks[i]) {
        Flow::Stop => false,
        Flow::Then(tgt) => tgt == blocks[i + 1],
        Flow::Branch(_, bl2) => bl2 == blocks[i + 1],
    }
}

/// Whether the flow leads from each block of a sequence to the next one.
pub open spec fn is_path(cfg: Cfg, blocks: Seq<BlockId>) -> bool {
    forall|i: int| 0 <= i < blocks.len() - 1 ==> #[trigger] goes_on(cfg, blocks, i)
}

/// A path can be continued with the block that the flow leads to from its end.
proof fn lemma_path_push(cfg: Cfg, blocks: Seq<BlockId>, next: BlockId)
    requires
        blocks.len() > 0,
        is_path(cfg, blocks),
        match cfg.flow(blocks.last()) {
            Flow::Stop => false,
            Flow::Then(tgt) => tgt == next,
            Flow::Branch(_, bl2) => bl2 == next,
        },
    ensures
        is_path(cfg, blocks.push(next)),
{
    assert forall|i: int| 0 <= i < blocks.len() implies #[trigger] goes_on(
        cfg,
        blocks.push(next),
        i,
    ) by {
        if i < blocks.len() - 1 {
            assert(goes_on(cfg, blocks, i));
        }
    }
}

/// Whether every entry of a stack that is marked `false` is the first of two branches, and
/// stands directly on the block that the branches belong to.
pub open spec fn branches_follow(cfg: Cfg, stack: Seq<(bool, BlockId)>) -> bool {
    forall|j: int|
        0 <= j < stack.len() && !(#[trigger] stack[j]).0 ==> {
            &&& 0 < j
            &&& stack[j - 1].0
            &&& cfg.flow(stack[j - 1].1) matches Flow::Branch(bl1, _)
            &&& bl1 == stack[j].1
        }
}

/// What developing a block leaves behind: the blocks passed, followed by the block that is
/// reached, are a path of the flow from the block on, and the rest are the first branches along
/// the path.
pub proof fn law_developed_path(cfg: Cfg, id: BlockId, stack: Seq<(bool, BlockId)>)
    requires
        cfg.ends(id),
    ensures
        ({
            let (leaf, after) = developed(cfg, id, stack);
            let pushed = after.skip(stack.len() as int);
            let path = passed(pushed).push(leaf);
            &&& path[0] == id
            &&& is_path(cfg, path)
            &&& branches_follow(cfg, pushed)
        }),
{
    let none = stack.skip(stack.len() as int);
    assert(none =~= Seq::empty());
    assert(passed(none).push(id) =~= seq![id]);
    lemma_developed_path(cfg, id, stack, stack, id);
}

/// Developing goes on with a path that developing has begun.
proof fn lemma_developed_path(
    cfg: Cfg,
    id: BlockId,
    stack: Seq<(bool, BlockId)>,
    bottom: Seq<(bool, BlockId)>,
    first: BlockId,
)
    requires
        cfg.ends(id),
        bottom.len() <= stack.len(),
        passed(stack.skip(bottom.len() as int)).push(id)[0] == first,
        is_path(cfg, passed(stack.skip(bottom.len() as int)).push(id)),
        branches_follow(cfg, stack.skip(bottom.len() as int)),
    ensures
        ({
            let (leaf, after) = developed(cfg, id, stack);
            let pushed = after.skip(bottom.len() as int);
            let path = passed(pushed).push(leaf);
            &&& path[0] == first
            &&& is_path(cfg, path)
            &&& branches_follow(cfg, pushed)
        }),
    decreases cfg.region(id).len(),
{
    lemma_region(cfg, id);
    law_developed_step(cfg, id, stack);
    let n = bottom.len() as int;
    let above = stack.skip(n);
    let path = passed(above).push(id);
    match cfg.flow(id) {
        Flow::Stop => {},
        Flow::Then(tgt) => {
            let pushed = stack.push((true, id));
            assert(pushed.skip(n) =~= above.push((true, id)));
            assert(above.push((true, id)).drop_last() =~= above);
            assert(passed(pushed.skip(n)) == path);
            lemma_path_push(cfg, path, tgt);
            assert(path.push(tgt)[0] == path[0]);
            lemma_developed_path(cfg, tgt, pushed, bottom, first);
        },
        Flow::Branch(bl1, bl2) => {
            let middle = above.push((true, id));
            let pushed = stack.push((true, id)).push((false, bl1));
            assert(pushed.skip(n) =~= middle.push((false, bl1)));
            assert(middle.push((false, bl1)).drop_last() =~= middle);
            assert(middle.drop_last() =~= above);
            assert(passed(middle) == path);
            assert(passed(pushed.skip(n)) == path);
            lemma_path_push(cfg, path, bl2);
            assert(path.push(bl2)[0] == path[0]);
            lemma_developed_path(cfg, bl2, pushed, bottom, first);
        },
    }
}

/// Blocks as trees, with the first block at the end.
pub open spec fn as_trees(blocks: Seq<BlockId>) -> Seq<BlockTree> {
    Seq::new(blocks.len(), |i: int| BlockTree::One(blocks[blocks.len() - 1 - i]))
}

impl<'a> BlockProofTree<'a> {
    /// Whether this is the proof of a tree of blocks of the procedure `ctx`.
    pub open spec fn shows(self, ctx: Proc<'a>, tree: BlockTree) -> bool {
        match (self, tree) {
            (BlockProofTree::Induction(ind), BlockTree::LabelGroup(data)) => {
                &&& ind.proc() == ctx
                &&& ind.label_seq() == data.0@
                &&& ind.trees() == data.1@
            },
            (BlockProofTree::Sequence(iter), BlockTree::Many(args)) => {
                &&& iter.proc() == ctx
                &&& iter.slice() == args@
                &&& iter.stack_seq() == Seq::<(bool, BlockId)>::empty()
                &&& iter.trees() == args@
            },
            (BlockProofTree::One(bl), BlockTree::One(id)) => {
                &&& bl.proc() == ctx
                &&& bl.block_id() == id
            },
            _ => false,
        }
    }

    /// The proof of a tree of blocks of the procedure `ctx`.
    pub fn new(ctx: &'a Proc<'a>, tree: &'a BlockTree) -> (r: Self)
        ensures
            r.shows(*ctx, *tree),
    {
        match tree {
            BlockTree::LabelGroup(data) => BlockProofTree::Induction(
                BlockTreeInduction {
                    ctx,
                    labels: data.0.as_slice(),
                    rest: data.1.as_slice(),
                },
            ),
            BlockTree::Many(args) => {
                let iter = BlockTreeIter { ctx, seq: args.as_slice(), stack: Vec::new() };
                assert(iter.trees() =~= args@);
                BlockProofTree::Sequence(iter)
            },
            BlockTree::One(id) => BlockProofTree::One(BlockProof { ctx, id: *id }),
        }
    }

    /// Follows the flow from `id` to a block where it stops, always into the second of two
    /// branches, and pushes what is left behind: the blocks passed, and the first branches.
    fn develop(ctx: &'a Proc<'a>, id: BlockId, stack: &mut Vec<(bool, BlockId)>) -> (r: BlockId)
        requires
            ctx.cfg.ends(id),
        ensures
            (r, final(stack)@) == developed(*ctx.cfg, id, old(stack)@),
            seq![r] + pending(*ctx.cfg, final(stack)@) == ctx.cfg.region(id) + pending(
                *ctx.cfg,
                old(stack)@,
            ),
            stack_ends(*ctx.cfg, old(stack)@) ==> stack_ends(*ctx.cfg, final(stack)@),
            final(stack)@.len() >= old(stack)@.len(),
            final(stack)@.len() == old(stack)@.len() <==> ctx.cfg.flow(id) is Stop,
    {
        let ghost cfg = *ctx.cfg;
        let ghost all = cfg.region(id) + pending(cfg, stack@);
        let mut cur: BlockId = id;
        loop
            invariant
                cfg == *ctx.cfg,
                cfg.ends(cur),
                stack_ends(cfg, old(stack)@) ==> stack_ends(cfg, stack@),
                developed(cfg, cur, stack@) == developed(cfg, id, old(stack)@),
                cfg.region(cur) + pending(cfg, stack@) == all,
                all == cfg.region(id) + pending(cfg, old(stack)@),
                stack@.len() >= old(stack)@.len(),
                stack@.len() == old(stack)@.len() ==> cur == id,
                stack@.len() > old(stack)@.len() ==> !(cfg.flow(id) is Stop),
            decreases cfg.region(cur).len(),
        {
            proof {
                lemma_region(cfg, cur);
                law_developed_step(cfg, cur, stack@);
            }
            let ghost before = stack@;
            match *ctx.cfg.blocks.0[cur.into_usize()].terminator() {
                Terminator::Jump1(tgt) | Terminator::Assert(true, tgt) | Terminator::Call {
                    reach: true,
                    tgt,
                } => {
                    stack.push((true, cur));
                    assert(stack@.drop_last() =~= before);
                    assert(cfg.region(tgt) + (seq![cur] + pending(cfg, before)) =~= cfg.region(
                        tgt,
                    ).push(cur) + pending(cfg, before));
                    cur = tgt;
                },
                Terminator::If(bl1, bl2) => {
                    stack.push((true, cur));
                    assert(stack@.drop_last() =~= before);
                    assert(pending(cfg, stack@) == seq![cur] + pending(cfg, before));
                    let ghost middle = stack@;
                    stack.push((false, bl1));
                    assert(stack@.drop_last() =~= middle);
                    assert(pending(cfg, stack@) == cfg.region(bl1) + pending(cfg, middle));
                    assert(cfg.region(bl2) + (cfg.region(bl1) + (seq![cur] + pending(cfg, before)))
                        =~= (cfg.region(bl2) + cfg.region(bl1)).push(cur) + pending(cfg, before));
                    cur = bl2;
                },
                _ => {
                    assert(seq![cur] + pending(cfg, stack@) =~= all);
                    return cur;
                },
            }
        }
    }

    /// The proof of a block and of all blocks that the flow from it leads to, each on its own
    /// and behind those that it leads to.
    pub fn one(ctx: &'a Proc<'a>, id: BlockId) -> (r: Self)
        requires
            ctx.cfg.ends(id),
        ensures
            ctx.cfg.flow(id) is Stop ==> r.shows(*ctx, BlockTree::One(id)),
            !(ctx.cfg.flow(id) is Stop) ==> {
                &&& r matches BlockProofTree::Sequence(iter)
                &&& iter.proc() == *ctx
                &&& iter.slice() == Seq::<BlockTree>::empty()
                &&& iter.stack_seq() == ({
                    let (leaf, stack) = developed(*ctx.cfg, id, Seq::empty());
                    stack.push((true, leaf))
                })
                &&& iter.trees() == as_trees(ctx.cfg.region(id))
            },
    {
        let mut stack: Vec<(bool, BlockId)> = Vec::new();
        let leaf = Self::develop(ctx, id, &mut stack);
        proof {
            lemma_region(*ctx.cfg, id);
        }
        if stack.len() == 0 {
            assert(ctx.cfg.region(id) =~= seq![leaf]);
            assert(ctx.cfg.region(id)[0] == id);
            BlockProofTree::One(BlockProof { ctx, id: leaf })
        } else {
            let ghost before = stack@;
            stack.push((true, leaf));
            assert(stack@.drop_last() =~= before);
            let none: &'a [BlockTree] = &[];
            let iter = BlockTreeIter { ctx, seq: none, stack };
            assert(pending(*ctx.cfg, iter.stack@) =~= ctx.cfg.region(id));
            assert(iter.trees() =~= as_trees(ctx.cfg.region(id)));
            BlockProofTree::Sequence(iter)
        }
    }
}

impl<'a> Clone for BlockTreeIter<'a> {
    /// An iterator over the same proofs.
    fn clone(&self) -> (r: Self)
        ensures
            r.proc() == self.proc(),
            r.slice() == self.slice(),
            r.stack_seq() == self.stack_seq(),
    {
        proof {
            use_type_invariant(self);
        }
        let mut stack: Vec<(bool, BlockId)> = Vec::new();
        for i in 0..self.stack.len()
            invariant
                stack@ == self.stack@.take(i as int),
        {
            stack.push(self.stack[i]);
            assert(stack@ =~= self.stack@.take(i + 1));
        }
        assert(stack@ =~= self.stack@);
        BlockTreeIter { ctx: self.ctx, seq: self.seq, stack }
    }
}

impl<'a> Clone for BlockProofTree<'a> {
    /// The same proof.
    fn clone(&self) -> (r: Self)
        ensures
            match (*self, r) {
                (BlockProofTree::Induction(a), BlockProofTree::Induction(b)) => a == b,
                (BlockProofTree::Sequence(a), BlockProofTree::Sequence(b)) => a.proc() == b.proc()
                    && a.slice() == b.slice() && a.stack_seq() == b.stack_seq(),
                (BlockProofTree::One(a), BlockProofTree::One(b)) => a == b,
                _ => false,
            },
    {
        match self {
            BlockProofTree::Induction(ind) => BlockProofTree::Induction(*ind),
            BlockProofTree::Sequence(iter) => BlockProofTree::Sequence(iter.clone()),
            BlockProofTree::One(bl) => BlockProofTree::One(*bl),
        }
    }
}

impl<'a> Proc<'a> {
    /// The proof tree for the entry block.
    #[must_use]
    pub fn proof_tree(&self) -> (r: BlockProofTree<'_>)
        ensures
            r.shows(*self, self.cfg.tree),
    {
        BlockProofTree::new(self, &self.cfg.tree)
    }
}

impl<'a> BlockTreeInduction<'a> {
    /// The procedure whose blocks are proved.
    pub closed spec fn proc(self) -> Proc<'a> {
        *self.ctx
    }

    /// The labels that the induction proves.
    pub closed spec fn label_seq(self) -> Seq<BlockId> {
        self.labels@
    }

    /// The trees of the induction step.
    pub closed spec fn trees(self) -> Seq<BlockTree> {
        self.rest@
    }

    /// The set of labels that are being made available in the body by this induction.
    /// They are proved in reverse order of the `body` iterator.
    #[must_use]
    pub fn labels(&self) -> (r: &'a [BlockId])
        ensures
            r@ == self.label_seq(),
    {
        self.labels
    }

    /// The body of the proof (the induction step).
    /// This is a sequence of block tree proofs which includes all the `labels`.
    #[must_use]
    pub fn body(&self) -> (r: BlockTreeIter<'a>)
        ensures
            r.proc() == self.proc(),
            r.slice() == self.trees(),
            r.stack_seq() == Seq::<(bool, BlockId)>::empty(),
            r.trees() == self.trees(),
    {
        let iter = BlockTreeIter { ctx: self.ctx, seq: self.rest, stack: Vec::new() };
        assert(iter.trees() =~= self.trees());
        iter
    }
}

impl<'a> BlockTreeIter<'a> {
    /// The procedure whose blocks are proved.
    pub closed spec fn proc(self) -> Proc<'a> {
        *self.ctx
    }

    /// The flow from every block whose region is still to be developed comes to an end.
    #[verifier::type_invariant]
    spec fn flows_end(self) -> bool {
        stack_ends(*self.ctx.cfg, self.stack@)
    }

    /// The trees that come when no block is left on the stack.
    pub closed spec fn slice(self) -> Seq<BlockTree> {
        self.seq@
    }

    /// The blocks that come first: those marked `true` as they are, and those marked `false`
    /// with their regions.
    pub closed spec fn stack_seq(self) -> Seq<(bool, BlockId)> {
        self.stack@
    }

    /// The trees that are still to come. The last one comes first.
    pub open spec fn trees(self) -> Seq<BlockTree> {
        self.slice() + as_trees(pending(*self.proc().cfg, self.stack_seq()))
    }

    /// The next proof. The blocks of the stack go first: the top one if it is marked `true`, and
    /// else the block that it develops to. Then the trees of the slice follow, the last one
    /// first.
    pub fn next(&mut self) -> (r: Option<BlockProofTree<'a>>)
        ensures
            final(self).proc() == old(self).proc(),
            old(self).trees().len() == 0 ==> r is None && final(self).trees() == old(self).trees(),
            old(self).trees().len() > 0 ==> {
                &&& r is Some
                &&& r->0.shows(old(self).proc(), old(self).trees().last())
                &&& final(self).trees() == old(self).trees().drop_last()
            },
            old(self).stack_seq().len() > 0 ==> {
                let (done, bl) = old(self).stack_seq().last();
                let rest = old(self).stack_seq().drop_last();
                &&& final(self).slice() == old(self).slice()
                &&& !done ==> old(self).proc().cfg.ends(bl)
                &&& r matches Some(BlockProofTree::One(proved))
                &&& (proved.block_id(), final(self).stack_seq()) == if done {
                    (bl, rest)
                } else {
                    developed(*old(self).proc().cfg, bl, rest)
                }
            },
            old(self).stack_seq().len() == 0 ==> {
                &&& final(self).stack_seq() == old(self).stack_seq()
                &&& final(self).slice() == if old(self).slice().len() > 0 {
                    old(self).slice().drop_last()
                } else {
                    old(self).slice()
                }
            },
    {
        proof {
            use_type_invariant(&*self);
        }
        let ghost cfg = *self.ctx.cfg;
        let ghost before = self.stack@;
        let ghost left = pending(cfg, before);
        let mut stack: Vec<(bool, BlockId)> = Vec::new();
        core::mem::swap(&mut self.stack, &mut stack);
        match stack.pop() {
            Some((done, bl)) => {
                assert(stack@ =~= before.drop_last());
                assert(before.last() == (done, bl));
                let id: BlockId = if done {
                    bl
                } else {
                    proof {
                        lemma_region(cfg, bl);
                    }
                    BlockProofTree::develop(self.ctx, bl, &mut stack)
                };
                assert(left =~= seq![id] + pending(cfg, stack@));
                assert(left[0] == id);
                self.stack = stack;
                assert(self.trees() =~= old(self).trees().drop_last());
                Some(BlockProofTree::One(BlockProof { ctx: self.ctx, id }))
            },
            None => {
                assert(left =~= Seq::empty());
                assert(old(self).trees() =~= self.seq@);
                let n: usize = self.seq.len();
                if n == 0 {
                    None
                } else {
                    let last: &'a BlockTree = &self.seq[n - 1];
                    self.seq = slice_subrange(self.seq, 0, n - 1);
                    assert(self.trees() =~= old(self).trees().drop_last());
                    Some(BlockProofTree::new(self.ctx, last))
                }
            },
        }
    }
}

impl<'a> BlockProof<'a> {
    /// The procedure whose block is proved.
    pub closed spec fn proc(self) -> Proc<'a> {
        *self.ctx
    }

    /// The block that is proved.
    pub closed spec fn block_id(self) -> BlockId {
        self.id
    }

    /// The underlying MIR block object.
    #[must_use]
    pub fn block(&self) -> (r: &'a BasicBlock)
        requires
            self.block_id().0 < self.proc().cfg.blocks@.len(),
        ensures
            *r == self.proc().cfg.blocks@[self.block_id().0 as int],
    {
        &self.ctx.cfg.blocks.0[self.id.into_usize()]
    }

    /// The procedure whose block is proved.
    pub(crate) fn context(&self) -> (r: &'a Proc<'a>)
        ensures
            *r == self.proc(),
    {
        self.ctx
    }

    /// The block ID.
    #[must_use]
    pub fn id(&self) -> (r: BlockId)
        ensures
            r == self.block_id(),
    {
        self.id
    }
}

/// Adds labels to a context, as proved blocks or as hypotheses. Fails if one of them is there
/// already.
fn add_labels(ctx: &mut BlockContext, labels: &[BlockId], hyp: bool) -> (r: bool)
    ensures
        r <==> fresh(entries(*old(ctx)), labels@),
        r ==> entries(*final(ctx)) == mark(entries(*old(ctx)), labels@, hyp),
{
    let ghost before = entries(*ctx);
    let mut i: usize = 0;
    assert(entries(*ctx) =~= mark(before, labels@.take(0), hyp));
    while i < labels.len()
        invariant
            i <= labels@.len(),
            before == entries(*old(ctx)),
            fresh(before, labels@.take(i as int)),
            entries(*ctx) == mark(before, labels@.take(i as int), hyp),
        decreases labels@.len() - i,
    {
        let ghost done = labels@.take(i as int);
        let ghost next = labels@.take(i + 1);
        let label: BlockId = labels[i];
        assert(next =~= done.push(label));
        let known = context_insert(ctx, label.0, hyp);
        if known.is_some() {
            proof {
                if done.contains(label) {
                    let j = done.index_of(label);
                    assert(labels@[j] == labels@[i as int]);
                } else {
                    assert(before.contains_key(labels@[i as int].0));
                }
            }
            return false;
        }
        assert(!done.contains(label));
        assert forall|k: u32| next.contains(BlockId(k)) <==> done.contains(BlockId(k)) || k
            == label.0 by {
            assert(next[i as int] == label);
            if done.contains(BlockId(k)) {
                assert(next[done.index_of(BlockId(k))] == BlockId(k));
            }
        }
        assert(entries(*ctx) =~= mark(before, next, hyp));
        i = i + 1;
    }
    assert(labels@.take(i as int) =~= labels@);
    true
}

impl<'a> BlockProof<'a> {
    /// The proof of another block of the same procedure.
    fn to(&self, id: BlockId) -> (r: Self)
        ensures
            r.proc() == self.proc(),
            r.block_id() == id,
    {
        BlockProof { ctx: self.ctx, id }
    }

    /// Checks that the flow from this block stops after at most `steps` steps, and that all
    /// jumps that it leads to are justified.
    fn validate_within(&self, ctx: &BlockContext, steps: usize) -> (r: bool)
        ensures
            r <==> {
                &&& self.proc().cfg.ends_within(self.block_id(), steps as nat)
                &&& jumps_ok(
                    *self.proc().cfg,
                    entries(*ctx),
                    self.proc().cfg.region_within(self.block_id(), steps as nat),
                )
            },
        decreases steps,
    {
        let ghost cfg = *self.ctx.cfg;
        let ghost known = entries(*ctx);
        let ghost blocks = cfg.region_within(self.id, steps as nat);
        let block = match self.ctx.cfg.blocks.get(self.id) {
            Some(block) => block,
            None => {
                return false;
            },
        };
        if block.term.is_none() {
            return false;
        }
        match *block.terminator() {
            Terminator::Jump(tgt, variant) => {
                assert(blocks =~= seq![self.id]);
                assert(blocks[0] == self.id);
                match context_get(ctx, tgt.0) {
                    Some(hyp) => hyp == variant.is_some(),
                    None => false,
                }
            },
            Terminator::Jump1(tgt) | Terminator::Assert(true, tgt) | Terminator::Call {
                reach: true,
                tgt,
            } => {
                if steps == 0 {
                    return false;
                }
                let r = self.to(tgt).validate_within(ctx, steps - 1);
                proof {
                    let inner = cfg.region_within(tgt, (steps - 1) as nat);
                    assert(blocks == inner.push(self.id));
                    assert(jump_ok(cfg, known, self.id));
                    assert(forall|i: int| 0 <= i < inner.len() ==> blocks[i] == #[trigger] inner[i]);
                }
                r
            },
            Terminator::If(bl1, bl2) => {
                if steps == 0 {
                    return false;
                }
                let r1 = self.to(bl1).validate_within(ctx, steps - 1);
                let r2 = self.to(bl2).validate_within(ctx, steps - 1);
                proof {
                    let inner1 = cfg.region_within(bl1, (steps - 1) as nat);
                    let inner2 = cfg.region_within(bl2, (steps - 1) as nat);
                    assert(blocks == (inner2 + inner1).push(self.id));
                    assert(jump_ok(cfg, known, self.id));
                    assert(forall|i: int|
                        0 <= i < inner2.len() ==> blocks[i] == #[trigger] inner2[i]);
                    assert(forall|i: int|
                        0 <= i < inner1.len() ==> blocks[i + inner2.len()] == #[trigger] inner1[i]);
                }
                r1 && r2
            },
            _ => {
                assert(blocks =~= seq![self.id]);
                true
            },
        }
    }

    /// Checks that this block is ok: the flow from it comes to an end, and all jumps that it
    /// leads to are justified by the context.
    pub fn validate(&self, ctx: &BlockContext) -> (r: bool)
        ensures
            r == block_ok(*self.proc().cfg, entries(*ctx), self.block_id()),
    {
        self.validate_within(ctx, self.ctx.cfg.blocks.len())
    }

    /// Checks that this block is ok and has not been proved before, and adds it to the context.
    fn prove(&self, ctx: &mut BlockContext) -> (r: bool)
        ensures
            r <==> check_one(*self.proc().cfg, self.block_id(), entries(*old(ctx))) is Some,
            r ==> Some(entries(*final(ctx))) == check_one(
                *self.proc().cfg,
                self.block_id(),
                entries(*old(ctx)),
            ),
            !r ==> entries(*final(ctx)) == entries(*old(ctx)),
    {
        if !self.validate(ctx) || context_get(ctx, self.id.0).is_some() {
            return false;
        }
        let _ = context_insert(ctx, self.id.0, false);
        true
    }
}

impl<'a> BlockTreeInduction<'a> {
    /// Checks that the body proves all labels, each under the hypothesis that all labels are ok
    /// for a smaller variant, and adds the labels to the context.
    fn validate(self, ctx: &mut BlockContext) -> (r: bool)
        ensures
            r <==> check_group(
                *self.proc().cfg,
                self.label_seq(),
                self.trees(),
                entries(*old(ctx)),
            ) is Some,
            r ==> Some(entries(*final(ctx))) == check_group(
                *self.proc().cfg,
                self.label_seq(),
                self.trees(),
                entries(*old(ctx)),
            ),
            !r ==> entries(*final(ctx)) == entries(*old(ctx)),
        decreases 1 + trees_size(self.trees()), 0nat,
    {
        let ghost cfg = *self.ctx.cfg;
        let labels = self.labels();
        let mut iter = self.body();
        let mut inner = context_clone(ctx);
        if !add_labels(&mut inner, labels, true) {
            return false;
        }
        let ghost body = check_body(cfg, labels@, self.trees(), entries(inner));
        let mut n: usize = labels.len();
        assert(labels@.take(n as int) =~= labels@);
        while n > 0
            invariant
                iter.proc() == self.proc(),
                cfg == *self.proc().cfg,
                labels@ == self.label_seq(),
                n <= labels@.len(),
                fresh(entries(*old(ctx)), labels@),
                body == check_body(
                    cfg,
                    labels@,
                    self.trees(),
                    mark(entries(*old(ctx)), labels@, true),
                ),
                body == check_body(cfg, labels@.take(n as int), iter.trees(), entries(inner)),
                trees_size(iter.trees()) <= trees_size(self.trees()),
            decreases iter.trees().len(),
        {
            let ghost left = iter.trees();
            let ghost todo = labels@.take(n as int);
            let tgt: BlockId = labels[n - 1];
            assert(todo.last() == tgt);
            match iter.next() {
                None => {
                    return false;
                },
                Some(BlockProofTree::One(bl)) => {
                    assert(left.last() == BlockTree::One(bl.block_id()));
                    assert(check_tree(cfg, left.last(), entries(inner)) == check_one(
                        cfg,
                        bl.block_id(),
                        entries(inner),
                    ));
                    if bl.id() == tgt {
                        if !bl.validate(&inner) {
                            return false;
                        }
                        assert(todo.drop_last() =~= labels@.take(n - 1));
                        n = n - 1;
                    } else if !bl.prove(&mut inner) {
                        return false;
                    }
                },
                Some(tree) => {
                    proof {
                        lemma_outcome(tree, self.proc(), left.last(), entries(inner));
                    }
                    if !tree.validate(&mut inner) {
                        return false;
                    }
                },
            }
        }
        iter.next().is_none() && add_labels(ctx, labels, false)
    }
}

/// The proof of a tree leads from context to context as the tree does, and has its size.
proof fn lemma_outcome<'a>(
    proved: BlockProofTree<'a>,
    ctx: Proc<'a>,
    tree: BlockTree,
    known: Map<u32, bool>,
)
    requires
        proved.shows(ctx, tree),
    ensures
        proved.outcome(known) == check_tree(*ctx.cfg, tree, known),
        proved.left(known) == left_by_tree(*ctx.cfg, tree, known),
        proved.size() == tree_size(tree),
{
}

impl<'a> BlockProofTree<'a> {
    /// The context after this proof, or `None` if the proof does not go through.
    pub open spec fn outcome(self, ctx: Map<u32, bool>) -> Option<Map<u32, bool>> {
        match self {
            BlockProofTree::Induction(ind) => check_group(
                *ind.proc().cfg,
                ind.label_seq(),
                ind.trees(),
                ctx,
            ),
            BlockProofTree::Sequence(iter) => check_seq(*iter.proc().cfg, iter.trees(), ctx),
            BlockProofTree::One(bl) => check_one(*bl.proc().cfg, bl.block_id(), ctx),
        }
    }

    /// The context that is left if this proof does not go through: an induction and a single
    /// block leave it as it was, and a sequence leaves what the trees before have proved.
    pub open spec fn left(self, ctx: Map<u32, bool>) -> Map<u32, bool> {
        match self {
            BlockProofTree::Sequence(iter) => left_by_seq(*iter.proc().cfg, iter.trees(), ctx),
            _ => ctx,
        }
    }

    /// The number of nodes of the tree that is proved.
    pub open spec fn size(self) -> nat {
        match self {
            BlockProofTree::Induction(ind) => 1 + trees_size(ind.trees()),
            BlockProofTree::Sequence(iter) => 1 + trees_size(iter.trees()),
            BlockProofTree::One(_) => 1,
        }
    }

    /// Checks that the proof goes through, and adds what it proves to the context.
    pub fn validate(self, ctx: &mut BlockContext) -> (r: bool)
        ensures
            r <==> self.outcome(entries(*old(ctx))) is Some,
            r ==> Some(entries(*final(ctx))) == self.outcome(entries(*old(ctx))),
            !r ==> entries(*final(ctx)) == self.left(entries(*old(ctx))),
        decreases self.size(), 1nat,
    {
        match self {
            BlockProofTree::Induction(ind) => ind.validate(ctx),
            BlockProofTree::Sequence(iter) => {
                let ghost proc = iter.proc();
                let ghost end = check_seq(*iter.proc().cfg, iter.trees(), entries(*ctx));
                let mut iter = iter;
                loop
                    invariant
                        iter.proc() == proc,
                        end == check_seq(*proc.cfg, iter.trees(), entries(*ctx)),
                        end == self.outcome(entries(*old(ctx))),
                        self.left(entries(*old(ctx))) == left_by_seq(
                            *proc.cfg,
                            iter.trees(),
                            entries(*ctx),
                        ),
                        trees_size(iter.trees()) < self.size(),
                    decreases iter.trees().len(),
                {
                    let ghost left = iter.trees();
                    match iter.next() {
                        None => {
                            return true;
                        },
                        Some(tree) => {
                            proof {
                                lemma_outcome(tree, proc, left.last(), entries(*ctx));
                            }
                            if !tree.validate(ctx) {
                                return false;
                            }
                        },
                    }
                }
            },
            BlockProofTree::One(bl) => bl.prove(ctx),
        }
    }
}

} // verus!
