//! When the blocks of a control flow graph can be proved in the order of a block tree.
//!
//! The statements here speak of contexts: a context maps a block to `false` once it has been
//! proved, and to `true` while it is only available as the hypothesis of an enclosing
//! induction.
use crate::ids::BlockId;
use crate::mir::{BlockTree, Cfg, Terminator};
use vstd::prelude::*;

verus! {

/// Whether the jump at the end of a block, if there is one, is justified: a jump without a
/// variant goes to a block that has been proved, and a jump with a variant goes to one that is
/// available as a hypothesis.
pub open spec fn jump_ok(cfg: Cfg, ctx: Map<u32, bool>, id: BlockId) -> bool {
    cfg.term(id) matches Terminator::Jump(tgt, variant) ==> {
        &&& ctx.contains_key(tgt.0)
        &&& ctx[tgt.0] == (variant is Some)
    }
}

/// Whether the jumps at the ends of all blocks of a sequence are justified.
pub open spec fn jumps_ok(cfg: Cfg, ctx: Map<u32, bool>, blocks: Seq<BlockId>) -> bool {
    forall|i: int| 0 <= i < blocks.len() ==> jump_ok(cfg, ctx, #[trigger] blocks[i])
}

/// Whether a block is ok because the flow from it comes to an end, and all jumps that the flow
/// leads to are justified.
pub open spec fn block_ok(cfg: Cfg, ctx: Map<u32, bool>, id: BlockId) -> bool {
    cfg.ends(id) && jumps_ok(cfg, ctx, cfg.region(id))
}

/// Whether labels are different from each other and from all blocks of a context.
pub open spec fn fresh(ctx: Map<u32, bool>, labels: Seq<BlockId>) -> bool {
    &&& labels.no_duplicates()
    &&& forall|i: int| 0 <= i < labels.len() ==> !ctx.contains_key(#[trigger] labels[i].0)
}

/// A context in which the labels are proved (`false`) or hypotheses (`true`), and all else is
/// as before.
pub open spec fn mark(ctx: Map<u32, bool>, labels: Seq<BlockId>, hyp: bool) -> Map<u32, bool> {
    Map::new(
        |k: u32| ctx.contains_key(k) || labels.contains(BlockId(k)),
        |k: u32|
            if labels.contains(BlockId(k)) {
                hyp
            } else {
                ctx[k]
            },
    )
}

/// Proves one block that has not been proved before. The result is the context after that, or
/// `None` if the block cannot be proved.
pub open spec fn check_one(cfg: Cfg, id: BlockId, ctx: Map<u32, bool>) -> Option<Map<u32, bool>> {
    if block_ok(cfg, ctx, id) && !ctx.contains_key(id.0) {
        Some(ctx.insert(id.0, false))
    } else {
        None
    }
}

/// Proves a tree. The result is the context after that, or `None` if there is no proof.
pub open spec fn check_tree(cfg: Cfg, tree: BlockTree, ctx: Map<u32, bool>) -> Option<
    Map<u32, bool>,
>
    decreases tree, 0nat,
{
    match tree {
        BlockTree::LabelGroup(data) => check_group(cfg, data.0@, data.1@, ctx),
        BlockTree::Many(args) => check_seq(cfg, args@, ctx),
        BlockTree::One(id) => check_one(cfg, id, ctx),
    }
}

/// Proves the trees of a sequence, the last one first.
pub open spec fn check_seq(cfg: Cfg, trees: Seq<BlockTree>, ctx: Map<u32, bool>) -> Option<
    Map<u32, bool>,
>
    decreases trees, 0nat,
{
    if trees.len() == 0 {
        Some(ctx)
    } else {
        match check_tree(cfg, trees.last(), ctx) {
            Some(after) => check_seq(cfg, trees.drop_last(), after),
            None => None,
        }
    }
}

/// Proves new labels by an induction whose step is a sequence of trees. What the step proves on
/// the way is not available after it; the labels are.
pub open spec fn check_group(
    cfg: Cfg,
    labels: Seq<BlockId>,
    trees: Seq<BlockTree>,
    ctx: Map<u32, bool>,
) -> Option<Map<u32, bool>>
    decreases trees, 1nat,
{
    if fresh(ctx, labels) && check_body(cfg, labels, trees, mark(ctx, labels, true)) {
        Some(mark(ctx, labels, false))
    } else {
        None
    }
}

/// Whether the trees, the last one first, are an induction step for the labels, the last one
/// first: each label is met as a single block, and nothing is left after the first label. A
/// label that has been met remains a hypothesis.
pub open spec fn check_body(
    cfg: Cfg,
    labels: Seq<BlockId>,
    trees: Seq<BlockTree>,
    ctx: Map<u32, bool>,
) -> bool
    decreases trees, 0nat,
{
    if labels.len() == 0 || trees.len() == 0 {
        labels.len() == 0 && trees.len() == 0
    } else if trees.last() == BlockTree::One(labels.last()) {
        &&& block_ok(cfg, ctx, labels.last())
        &&& check_body(cfg, labels.drop_last(), trees.drop_last(), ctx)
    } else {
        match check_tree(cfg, trees.last(), ctx) {
            Some(after) => check_body(cfg, labels, trees.drop_last(), after),
            None => false,
        }
    }
}

/// The context that is left when the proof of a tree does not go through: an induction and a
/// single block leave it as it was, and a sequence leaves what the trees before have proved.
pub open spec fn left_by_tree(cfg: Cfg, tree: BlockTree, ctx: Map<u32, bool>) -> Map<u32, bool>
    decreases tree, 0nat,
{
    match tree {
        BlockTree::Many(args) => left_by_seq(cfg, args@, ctx),
        _ => ctx,
    }
}

/// The context that is left when the proof of a sequence of trees does not go through.
pub open spec fn left_by_seq(cfg: Cfg, trees: Seq<BlockTree>, ctx: Map<u32, bool>) -> Map<
    u32,
    bool,
>
    decreases trees, 0nat,
{
    if trees.len() == 0 {
        ctx
    } else {
        match check_tree(cfg, trees.last(), ctx) {
            Some(after) => left_by_seq(cfg, trees.drop_last(), after),
            None => left_by_tree(cfg, trees.last(), ctx),
        }
    }
}

/// The number of nodes of a tree.
pub open spec fn tree_size(tree: BlockTree) -> nat
    decreases tree, 0nat,
{
    match tree {
        BlockTree::LabelGroup(data) => 1 + trees_size(data.1@),
        BlockTree::Many(args) => 1 + trees_size(args@),
        BlockTree::One(_) => 1,
    }
}

/// The number of nodes of the trees of a sequence.
pub open spec fn trees_size(trees: Seq<BlockTree>) -> nat
    decreases trees, 0nat,
{
    if trees.len() == 0 {
        0
    } else {
        tree_size(trees.last()) + trees_size(trees.drop_last())
    }
}

} // verus!
