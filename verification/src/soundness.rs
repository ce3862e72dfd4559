//! What a validated block tree guarantees.
use crate::block_tree::as_trees;
use crate::check::{
    block_ok, check_body, check_group, check_one, check_seq, check_tree, fresh, jump_ok,
    left_by_seq, left_by_tree, mark,
};
use crate::ids::BlockId;
use crate::mir::{lemma_region, BlockTree, Cfg, Flow, Terminator};
use vstd::prelude::*;

verus! {

/// A step of the proof of a tree: a block is proved, under the hypotheses of the inductions
/// that enclose it, from the blocks that are available as proved.
pub struct Step {
    /// The block that is proved.
    pub block: BlockId,
    /// The labels of the enclosing inductions.
    pub hyps: Set<BlockId>,
    /// The blocks that are available as proved. What has been proved on the way in an induction
    /// that is closed is not among them.
    pub known: Set<BlockId>,
}

/// The blocks that the proof of a tree makes available: of an induction these are the labels.
pub open spec fn tree_adds(tree: BlockTree) -> Set<BlockId>
    decreases tree, 0nat,
{
    match tree {
        BlockTree::LabelGroup(data) => data.0@.to_set(),
        BlockTree::Many(args) => trees_adds(args@),
        BlockTree::One(block) => Set::empty().insert(block),
    }
}

/// The blocks that the proofs of the trees of a sequence make available.
pub open spec fn trees_adds(trees: Seq<BlockTree>) -> Set<BlockId>
    decreases trees, 0nat,
{
    if trees.len() == 0 {
        Set::empty()
    } else {
        tree_adds(trees.last()).union(trees_adds(trees.drop_last()))
    }
}

/// The steps of the proof of a tree, in order.
pub open spec fn tree_steps(tree: BlockTree, hyps: Set<BlockId>, known: Set<BlockId>) -> Seq<Step>
    decreases tree, 0nat,
{
    match tree {
        BlockTree::LabelGroup(data) => trees_steps(
            data.1@,
            hyps.union(data.0@.to_set()),
            known,
        ),
        BlockTree::Many(args) => trees_steps(args@, hyps, known),
        BlockTree::One(block) => seq![Step { block, hyps, known }],
    }
}

/// The steps of the proof of the trees of a sequence, the last one first. What a tree makes
/// available is available to those after it; a hypothesis remains one.
pub open spec fn trees_steps(
    trees: Seq<BlockTree>,
    hyps: Set<BlockId>,
    known: Set<BlockId>,
) -> Seq<Step>
    decreases trees, 0nat,
{
    if trees.len() == 0 {
        Seq::empty()
    } else {
        tree_steps(trees.last(), hyps, known) + trees_steps(
            trees.drop_last(),
            hyps,
            known.union(tree_adds(trees.last()).difference(hyps)),
        )
    }
}

/// Whether a block is proved by one of the first `n` steps.
pub open spec fn proved_by(steps: Seq<Step>, n: int, block: BlockId) -> bool {
    exists|k: int| 0 <= k < n && (#[trigger] steps[k]).block == block
}

/// Whether the jump at the end of a block, if there is one, is justified in a step: with a
/// variant it goes to a label of an enclosing induction, and without one to a block that is
/// available as proved.
pub open spec fn jump_justified(cfg: Cfg, step: Step, block: BlockId) -> bool {
    cfg.term(block) matches Terminator::Jump(tgt, variant) ==> if variant is Some {
        step.hyps.contains(tgt)
    } else {
        step.known.contains(tgt)
    }
}

/// Whether a step is sound: the flow from its block comes to an end, and every jump that the
/// flow leads to is justified.
pub open spec fn step_sound(cfg: Cfg, step: Step) -> bool {
    &&& cfg.ends(step.block)
    &&& forall|j: int|
        0 <= j < cfg.region(step.block).len() ==> jump_justified(
            cfg,
            step,
            #[trigger] cfg.region(step.block)[j],
        )
}

/// Whether all steps are sound.
pub open spec fn steps_sound(cfg: Cfg, steps: Seq<Step>) -> bool {
    forall|i: int| 0 <= i < steps.len() ==> step_sound(cfg, #[trigger] steps[i])
}

/// Whether every block that is available in step `i` was so from the start, or has been proved
/// by an earlier step.
pub open spec fn known_at(steps: Seq<Step>, known: Set<BlockId>, i: int) -> bool {
    forall|b: BlockId| #[trigger]
        steps[i].known.contains(b) ==> known.contains(b) || proved_by(steps, i, b)
}

/// Whether the blocks that are available in the steps were so from the start, or have been
/// proved by earlier steps.
pub open spec fn known_proved(steps: Seq<Step>, known: Set<BlockId>) -> bool {
    forall|i: int| 0 <= i < steps.len() ==> #[trigger] known_at(steps, known, i)
}

/// The blocks that a context holds as hypotheses.
pub open spec fn hyps_of(ctx: Map<u32, bool>) -> Set<BlockId> {
    Set::new(|b: BlockId| ctx.contains_key(b.0) && ctx[b.0])
}

/// The blocks that a context holds as proved.
pub open spec fn known_of(ctx: Map<u32, bool>) -> Set<BlockId> {
    Set::new(|b: BlockId| ctx.contains_key(b.0) && !ctx[b.0])
}

/// Whether a context has grown by blocks that are new and proved, and by nothing else: what was
/// there before is unchanged.
pub open spec fn grown(
    before: Map<u32, bool>,
    after: Map<u32, bool>,
    blocks: Set<BlockId>,
) -> bool {
    &&& forall|b: BlockId| #[trigger]
        after.contains_key(b.0) <==> before.contains_key(b.0) || blocks.contains(b)
    &&& forall|b: BlockId| #[trigger] blocks.contains(b) ==> !before.contains_key(b.0)
    &&& forall|b: BlockId| #[trigger]
        after.contains_key(b.0) ==> after[b.0] == (before.contains_key(b.0) && before[b.0])
}

/// Growth by new blocks adds to what is known, and leaves the hypotheses.
proof fn lemma_grown(before: Map<u32, bool>, after: Map<u32, bool>, blocks: Set<BlockId>)
    requires
        grown(before, after, blocks),
    ensures
        hyps_of(after) == hyps_of(before),
        known_of(after) == known_of(before).union(blocks),
        blocks.difference(hyps_of(before)) == blocks,
{
    assert forall|b: BlockId| hyps_of(after).contains(b) <==> hyps_of(before).contains(b) by {
        assert(after.contains_key(b.0) <==> before.contains_key(b.0) || blocks.contains(b));
    }
    assert forall|b: BlockId|
        known_of(after).contains(b) <==> known_of(before).union(blocks).contains(b) by {
        assert(after.contains_key(b.0) <==> before.contains_key(b.0) || blocks.contains(b));
    }
    assert(hyps_of(after) =~= hyps_of(before));
    assert(known_of(after) =~= known_of(before).union(blocks));
    assert(blocks.difference(hyps_of(before)) =~= blocks);
}

/// Growth by some blocks and then by others is growth by all of them.
proof fn lemma_grown_append(
    before: Map<u32, bool>,
    mid: Map<u32, bool>,
    after: Map<u32, bool>,
    first: Set<BlockId>,
    second: Set<BlockId>,
)
    requires
        grown(before, mid, first),
        grown(mid, after, second),
    ensures
        grown(before, after, first.union(second)),
{
    let blocks = first.union(second);
    assert forall|b: BlockId| #[trigger]
        after.contains_key(b.0) <==> before.contains_key(b.0) || blocks.contains(b) by {
        assert(mid.contains_key(b.0) <==> before.contains_key(b.0) || first.contains(b));
    }
    assert forall|b: BlockId| #[trigger] blocks.contains(b) implies !before.contains_key(b.0) by {
        assert(mid.contains_key(b.0) <==> before.contains_key(b.0) || first.contains(b));
        assert(second.contains(b) ==> !mid.contains_key(b.0));
    }
    assert forall|b: BlockId| #[trigger] after.contains_key(b.0) implies after[b.0] == (
    before.contains_key(b.0) && before[b.0]) by {
        assert(mid.contains_key(b.0) <==> before.contains_key(b.0) || first.contains(b));
    }
}

/// What the first steps prove is proved by more steps.
proof fn lemma_proved_append(first: Seq<Step>, second: Seq<Step>, n: int, block: BlockId)
    requires
        0 <= n <= first.len(),
        proved_by(first, n, block),
    ensures
        forall|m: int| n <= m ==> #[trigger] proved_by(first + second, m, block),
{
    let k = choose|k: int| 0 <= k < n && (#[trigger] first[k]).block == block;
    assert((first + second)[k].block == block);
}

/// What later steps prove is proved when they follow other steps.
proof fn lemma_proved_append2(first: Seq<Step>, second: Seq<Step>, n: int, block: BlockId)
    requires
        0 <= n <= second.len(),
        proved_by(second, n, block),
    ensures
        forall|m: int|
            first.len() + n <= m ==> #[trigger] proved_by(first + second, m, block),
{
    let k = choose|k: int| 0 <= k < n && (#[trigger] second[k]).block == block;
    assert((first + second)[first.len() + k].block == block);
}

/// Steps can be followed by steps to which what the first ones have proved is available.
proof fn lemma_steps_append(
    cfg: Cfg,
    first: Seq<Step>,
    second: Seq<Step>,
    known: Set<BlockId>,
    mid: Set<BlockId>,
)
    requires
        steps_sound(cfg, first),
        steps_sound(cfg, second),
        known_proved(first, known),
        known_proved(second, mid),
        forall|b: BlockId| #[trigger]
            mid.contains(b) ==> known.contains(b) || proved_by(first, first.len() as int, b),
    ensures
        steps_sound(cfg, first + second),
        known_proved(first + second, known),
{
    let steps = first + second;
    assert forall|i: int| 0 <= i < steps.len() implies #[trigger] known_at(steps, known, i) by {
        assert forall|b: BlockId| #[trigger] steps[i].known.contains(b) implies known.contains(b)
            || proved_by(steps, i, b) by {
            if i < first.len() {
                assert(known_at(first, known, i));
                assert(first[i].known.contains(b));
                if !known.contains(b) {
                    lemma_proved_append(first, second, i, b);
                }
            } else {
                let i2 = i - first.len();
                assert(known_at(second, mid, i2));
                assert(second[i2].known.contains(b));
                if mid.contains(b) {
                    if !known.contains(b) {
                        lemma_proved_append(first, second, first.len() as int, b);
                    }
                } else {
                    lemma_proved_append2(first, second, i2, b);
                }
            }
        }
    }
}

/// A block that is ok is a sound step.
proof fn lemma_block_step(cfg: Cfg, ctx: Map<u32, bool>, id: BlockId)
    requires
        block_ok(cfg, ctx, id),
    ensures
        ({
            let steps = seq![Step { block: id, hyps: hyps_of(ctx), known: known_of(ctx) }];
            &&& steps_sound(cfg, steps)
            &&& known_proved(steps, known_of(ctx))
            &&& proved_by(steps, 1, id)
        }),
{
    let step = Step { block: id, hyps: hyps_of(ctx), known: known_of(ctx) };
    let steps = seq![step];
    assert(steps[0].block == id);
    let region = cfg.region(id);
    assert forall|j: int| 0 <= j < region.len() implies jump_justified(
        cfg,
        step,
        #[trigger] region[j],
    ) by {
        assert(jump_ok(cfg, ctx, region[j]));
    }
    assert(step_sound(cfg, step));
}

/// Whether steps are sound, use only what has been proved before them, and prove the given
/// blocks.
spec fn steps_prove(
    cfg: Cfg,
    steps: Seq<Step>,
    known: Set<BlockId>,
    blocks: Set<BlockId>,
) -> bool {
    &&& steps_sound(cfg, steps)
    &&& known_proved(steps, known)
    &&& forall|b: BlockId| #[trigger]
        blocks.contains(b) ==> proved_by(steps, steps.len() as int, b)
}

/// The proof of a tree, as far as the laws need it.
proof fn lemma_tree_sound(cfg: Cfg, tree: BlockTree, ctx: Map<u32, bool>)
    requires
        check_tree(cfg, tree, ctx) is Some,
    ensures
        steps_prove(
            cfg,
            tree_steps(tree, hyps_of(ctx), known_of(ctx)),
            known_of(ctx),
            tree_adds(tree),
        ),
        grown(ctx, check_tree(cfg, tree, ctx)->0, tree_adds(tree)),
    decreases tree, 0nat,
{
    match tree {
        BlockTree::LabelGroup(data) => {
            lemma_group_sound(cfg, data.0@, data.1@, ctx);
        },
        BlockTree::Many(args) => {
            lemma_seq_sound(cfg, args@, ctx);
        },
        BlockTree::One(id) => {
            lemma_block_step(cfg, ctx, id);
        },
    }
}

/// The proof of a sequence of trees, as far as the laws need it.
proof fn lemma_seq_sound(cfg: Cfg, trees: Seq<BlockTree>, ctx: Map<u32, bool>)
    requires
        check_seq(cfg, trees, ctx) is Some,
    ensures
        steps_prove(
            cfg,
            trees_steps(trees, hyps_of(ctx), known_of(ctx)),
            known_of(ctx),
            trees_adds(trees),
        ),
        grown(ctx, check_seq(cfg, trees, ctx)->0, trees_adds(trees)),
    decreases trees, 0nat,
{
    if trees.len() > 0 {
        let mid = check_tree(cfg, trees.last(), ctx)->0;
        let after = check_seq(cfg, trees, ctx)->0;
        let adds = tree_adds(trees.last());
        let more = trees_adds(trees.drop_last());
        let first = tree_steps(trees.last(), hyps_of(ctx), known_of(ctx));
        let second = trees_steps(trees.drop_last(), hyps_of(mid), known_of(mid));
        lemma_tree_sound(cfg, trees.last(), ctx);
        lemma_grown(ctx, mid, adds);
        lemma_seq_sound(cfg, trees.drop_last(), mid);
        assert(trees_steps(trees, hyps_of(ctx), known_of(ctx)) == first + second);
        lemma_steps_append(cfg, first, second, known_of(ctx), known_of(mid));
        lemma_grown_append(ctx, mid, after, adds, more);
        let steps = first + second;
        assert forall|b: BlockId| #[trigger] trees_adds(trees).contains(b) implies proved_by(
            steps,
            steps.len() as int,
            b,
        ) by {
            if adds.contains(b) {
                lemma_proved_append(first, second, first.len() as int, b);
            } else {
                assert(more.contains(b));
                lemma_proved_append2(first, second, second.len() as int, b);
            }
        }
    }
}

/// The proof of an induction, as far as the laws need it.
proof fn lemma_group_sound(
    cfg: Cfg,
    labels: Seq<BlockId>,
    trees: Seq<BlockTree>,
    ctx: Map<u32, bool>,
)
    requires
        check_group(cfg, labels, trees, ctx) is Some,
    ensures
        steps_prove(
            cfg,
            trees_steps(trees, hyps_of(ctx).union(labels.to_set()), known_of(ctx)),
            known_of(ctx),
            labels.to_set(),
        ),
        grown(ctx, check_group(cfg, labels, trees, ctx)->0, labels.to_set()),
    decreases trees, 1nat,
{
    let inner = mark(ctx, labels, true);
    let after = mark(ctx, labels, false);
    assert forall|b: BlockId| #[trigger] labels.to_set().contains(b) implies !ctx.contains_key(
        b.0,
    ) by {
        let i = labels.index_of(b);
        assert(!ctx.contains_key(labels[i].0));
    }
    assert forall|b: BlockId| hyps_of(inner).contains(b) <==> hyps_of(ctx).union(
        labels.to_set(),
    ).contains(b) by {
        assert(BlockId(b.0) == b);
    }
    assert forall|b: BlockId| known_of(inner).contains(b) <==> known_of(ctx).contains(b) by {
        assert(BlockId(b.0) == b);
        assert(labels.to_set().contains(b) ==> !ctx.contains_key(b.0));
    }
    assert(hyps_of(inner) =~= hyps_of(ctx).union(labels.to_set()));
    assert(known_of(inner) =~= known_of(ctx));
    assert forall|i: int| 0 <= i < labels.len() implies hyps_of(inner).contains(
        #[trigger] labels[i],
    ) by {
        assert(labels.to_set().contains(labels[i]));
    }
    lemma_body_sound(cfg, labels, trees, inner);
    assert forall|b: BlockId| #[trigger]
        after.contains_key(b.0) <==> ctx.contains_key(b.0) || labels.to_set().contains(b) by {
        assert(BlockId(b.0) == b);
    }
    assert forall|b: BlockId| #[trigger] after.contains_key(b.0) implies after[b.0] == (
    ctx.contains_key(b.0) && ctx[b.0]) by {
        assert(BlockId(b.0) == b);
        assert(labels.to_set().contains(b) ==> !ctx.contains_key(b.0));
    }
}

/// The proof of an induction step, as far as the laws need it.
proof fn lemma_body_sound(
    cfg: Cfg,
    labels: Seq<BlockId>,
    trees: Seq<BlockTree>,
    ctx: Map<u32, bool>,
)
    requires
        check_body(cfg, labels, trees, ctx),
        forall|i: int| 0 <= i < labels.len() ==> hyps_of(ctx).contains(#[trigger] labels[i]),
    ensures
        steps_prove(
            cfg,
            trees_steps(trees, hyps_of(ctx), known_of(ctx)),
            known_of(ctx),
            labels.to_set(),
        ),
    decreases trees, 0nat,
{
    let steps = trees_steps(trees, hyps_of(ctx), known_of(ctx));
    if labels.len() > 0 && trees.len() > 0 {
        let first = tree_steps(trees.last(), hyps_of(ctx), known_of(ctx));
        if trees.last() == BlockTree::One(labels.last()) {
            let label = labels.last();
            let adds = Set::<BlockId>::empty().insert(label);
            let second = trees_steps(trees.drop_last(), hyps_of(ctx), known_of(ctx));
            assert(known_of(ctx).union(adds.difference(hyps_of(ctx))) =~= known_of(ctx));
            assert(tree_adds(trees.last()) == adds);
            assert(steps == first + second);
            lemma_block_step(cfg, ctx, label);
            assert(first == seq![
                Step { block: label, hyps: hyps_of(ctx), known: known_of(ctx) },
            ]);
            assert forall|i: int| 0 <= i < labels.drop_last().len() implies hyps_of(ctx).contains(
                #[trigger] labels.drop_last()[i],
            ) by {
                assert(labels[i] == labels.drop_last()[i]);
            }
            lemma_body_sound(cfg, labels.drop_last(), trees.drop_last(), ctx);
            lemma_steps_append(cfg, first, second, known_of(ctx), known_of(ctx));
            assert forall|b: BlockId| #[trigger] labels.to_set().contains(b) implies proved_by(
                steps,
                steps.len() as int,
                b,
            ) by {
                if b == label {
                    lemma_proved_append(first, second, 1, label);
                } else {
                    let i = labels.index_of(b);
                    assert(labels.drop_last()[i] == b);
                    assert(labels.drop_last().to_set().contains(b));
                    lemma_proved_append2(first, second, second.len() as int, b);
                }
            }
        } else {
            let mid = check_tree(cfg, trees.last(), ctx)->0;
            let second = trees_steps(trees.drop_last(), hyps_of(mid), known_of(mid));
            lemma_tree_sound(cfg, trees.last(), ctx);
            lemma_grown(ctx, mid, tree_adds(trees.last()));
            assert(steps == first + second);
            lemma_body_sound(cfg, labels, trees.drop_last(), mid);
            lemma_steps_append(cfg, first, second, known_of(ctx), known_of(mid));
            assert forall|b: BlockId| #[trigger] labels.to_set().contains(b) implies proved_by(
                steps,
                steps.len() as int,
                b,
            ) by {
                lemma_proved_append2(first, second, second.len() as int, b);
            }
        }
    }
}

/// In the proof of a tree that goes through, every flow comes to an end, every jump with a
/// variant goes to a label of an enclosing induction, and every jump without a variant goes to
/// a block that is available as proved.
pub proof fn law_tree_sound(cfg: Cfg, tree: BlockTree, ctx: Map<u32, bool>)
    requires
        check_tree(cfg, tree, ctx) is Some,
    ensures
        steps_sound(cfg, tree_steps(tree, hyps_of(ctx), known_of(ctx))),
{
    lemma_tree_sound(cfg, tree, ctx);
}

/// In the proof of a tree that goes through, a block that is available as proved was so from
/// the start, or was proved in an earlier step.
pub proof fn law_known_proved(cfg: Cfg, tree: BlockTree, ctx: Map<u32, bool>)
    requires
        check_tree(cfg, tree, ctx) is Some,
    ensures
        known_proved(tree_steps(tree, hyps_of(ctx), known_of(ctx)), known_of(ctx)),
{
    lemma_tree_sound(cfg, tree, ctx);
}

/// A proof that goes through leaves what the context held unchanged, and adds exactly the
/// blocks that the tree makes available, as proved: neither a hypothesis of an induction nor
/// what it proves on the way is available after it. None of the blocks was there before.
pub proof fn law_context_grows(cfg: Cfg, tree: BlockTree, ctx: Map<u32, bool>)
    requires
        check_tree(cfg, tree, ctx) is Some,
    ensures
        grown(ctx, check_tree(cfg, tree, ctx)->0, tree_adds(tree)),
{
    lemma_tree_sound(cfg, tree, ctx);
}

/// Whether a context has kept all that it held, and what is new is proved.
pub open spec fn kept(before: Map<u32, bool>, after: Map<u32, bool>) -> bool {
    forall|b: BlockId|
        {
            &&& #[trigger] before.contains_key(b.0) ==> after.contains_key(b.0) && after[b.0]
                == before[b.0]
            &&& after.contains_key(b.0) && !before.contains_key(b.0) ==> !after[b.0]
        }
}

/// A proof that does not go through leaves what the context held unchanged, and adds no
/// hypothesis.
pub proof fn law_refusal_keeps(cfg: Cfg, tree: BlockTree, ctx: Map<u32, bool>)
    requires
        check_tree(cfg, tree, ctx) is None,
    ensures
        kept(ctx, left_by_tree(cfg, tree, ctx)),
    decreases tree, 0nat,
{
    if let BlockTree::Many(args) = tree {
        lemma_refusal_keeps(cfg, args@, ctx);
    }
}

/// A sequence that does not go through leaves what the context held unchanged.
proof fn lemma_refusal_keeps(cfg: Cfg, trees: Seq<BlockTree>, ctx: Map<u32, bool>)
    requires
        check_seq(cfg, trees, ctx) is None,
    ensures
        kept(ctx, left_by_seq(cfg, trees, ctx)),
    decreases trees, 0nat,
{
    match check_tree(cfg, trees.last(), ctx) {
        Some(mid) => {
            let after = left_by_seq(cfg, trees, ctx);
            lemma_tree_sound(cfg, trees.last(), ctx);
            lemma_refusal_keeps(cfg, trees.drop_last(), mid);
            assert forall|b: BlockId|
                {
                    &&& #[trigger] ctx.contains_key(b.0) ==> after.contains_key(b.0) && after[b.0]
                        == ctx[b.0]
                    &&& after.contains_key(b.0) && !ctx.contains_key(b.0) ==> !after[b.0]
                } by {
                assert(mid.contains_key(b.0) <==> ctx.contains_key(b.0) || tree_adds(
                    trees.last(),
                ).contains(b));
            }
        },
        None => {
            law_refusal_keeps(cfg, trees.last(), ctx);
        },
    }
}

/// A block is ok exactly if the jump at its end is justified and all blocks are ok that the
/// flow leads to next.
pub proof fn law_block_ok(cfg: Cfg, ctx: Map<u32, bool>, id: BlockId)
    ensures
        block_ok(cfg, ctx, id) <==> cfg.has(id) && jump_ok(cfg, ctx, id) && match cfg.flow(id) {
            Flow::Stop => true,
            Flow::Then(tgt) => block_ok(cfg, ctx, tgt),
            Flow::Branch(bl1, bl2) => block_ok(cfg, ctx, bl1) && block_ok(cfg, ctx, bl2),
        },
{
    lemma_region(cfg, id);
    if cfg.ends(id) {
        let region = cfg.region(id);
        assert(region.last() == id);
        match cfg.flow(id) {
            Flow::Stop => {},
            Flow::Then(tgt) => {
                let inner = cfg.region(tgt);
                assert(forall|i: int| 0 <= i < inner.len() ==> region[i] == #[trigger] inner[i]);
            },
            Flow::Branch(bl1, bl2) => {
                let inner1 = cfg.region(bl1);
                let inner2 = cfg.region(bl2);
                assert(forall|i: int| 0 <= i < inner2.len() ==> region[i] == #[trigger] inner2[i]);
                assert(forall|i: int|
                    0 <= i < inner1.len() ==> region[i + inner2.len()] == #[trigger] inner1[i]);
            },
        }
    }
}

/// Whether a block stands among the first `n` of a sequence.
pub open spec fn stands_before(blocks: Seq<BlockId>, n: int, block: BlockId) -> bool {
    exists|k: int| 0 <= k < n && #[trigger] blocks[k] == block
}

/// Whether the blocks that the flow from `blocks[i]` leads to next all stand before it.
pub open spec fn follows_next(cfg: Cfg, blocks: Seq<BlockId>, i: int) -> bool {
    match cfg.flow(blocks[i]) {
        Flow::Stop => true,
        Flow::Then(tgt) => stands_before(blocks, i, tgt),
        Flow::Branch(bl1, bl2) => stands_before(blocks, i, bl1) && stands_before(blocks, i, bl2),
    }
}

/// A region is in dependency order: it ends with the block that it belongs to, and every block
/// stands behind those that the flow from it leads to next.
pub proof fn law_region_order(cfg: Cfg, id: BlockId)
    requires
        cfg.ends(id),
    ensures
        cfg.region(id).last() == id,
        forall|i: int|
            0 <= i < cfg.region(id).len() ==> #[trigger] follows_next(cfg, cfg.region(id), i),
    decreases cfg.region(id).len(),
{
    lemma_region(cfg, id);
    let region = cfg.region(id);
    match cfg.flow(id) {
        Flow::Stop => {},
        Flow::Then(tgt) => {
            let inner = cfg.region(tgt);
            law_region_order(cfg, tgt);
            lemma_order_within(cfg, Seq::empty(), inner, seq![id]);
            assert(Seq::<BlockId>::empty() + inner + seq![id] =~= region);
            lemma_region(cfg, tgt);
            assert(region[inner.len() - 1] == tgt);
        },
        Flow::Branch(bl1, bl2) => {
            let inner1 = cfg.region(bl1);
            let inner2 = cfg.region(bl2);
            lemma_region(cfg, bl1);
            lemma_region(cfg, bl2);
            law_region_order(cfg, bl1);
            law_region_order(cfg, bl2);
            lemma_order_within(cfg, Seq::empty(), inner2, inner1.push(id));
            lemma_order_within(cfg, inner2, inner1, seq![id]);
            assert(Seq::<BlockId>::empty() + inner2 + inner1.push(id) =~= region);
            assert(inner2 + inner1 + seq![id] =~= region);
            assert(region[inner2.len() - 1] == bl2);
            assert(region[inner2.len() + inner1.len() - 1] == bl1);
        },
    }
}

/// Blocks that stand in dependency order do so as part of a longer sequence.
proof fn lemma_order_within(
    cfg: Cfg,
    before: Seq<BlockId>,
    blocks: Seq<BlockId>,
    after: Seq<BlockId>,
)
    requires
        forall|i: int| 0 <= i < blocks.len() ==> #[trigger] follows_next(cfg, blocks, i),
    ensures
        forall|i: int|
            before.len() <= i < before.len() + blocks.len() ==> #[trigger] follows_next(
                cfg,
                before + blocks + after,
                i,
            ),
{
    let all = before + blocks + after;
    assert forall|i: int| before.len() <= i < before.len() + blocks.len() implies #[trigger]
        follows_next(cfg, all, i) by {
        let i2 = i - before.len();
        assert(follows_next(cfg, blocks, i2));
        assert(all[i] == blocks[i2]);
        assert forall|b: BlockId| #[trigger] stands_before(blocks, i2, b) implies stands_before(
            all,
            i,
            b,
        ) by {
            let k = choose|k: int| 0 <= k < i2 && #[trigger] blocks[k] == b;
            assert(all[before.len() + k] == b);
        }
    }
}

/// Whether the flow from one block leads to a jump without a variant to another.
pub open spec fn jumps_to(cfg: Cfg, from: BlockId, to: BlockId) -> bool {
    exists|j: int|
        0 <= j < cfg.region(from).len() && cfg.term(#[trigger] cfg.region(from)[j])
            == Terminator::Jump(to, None)
}

/// The first step that proves a block.
pub open spec fn first_step(steps: Seq<Step>, block: BlockId) -> nat
    decreases steps.len(),
{
    if steps.len() == 0 || steps[0].block == block {
        0
    } else {
        1 + first_step(steps.skip(1), block)
    }
}

/// The first step that proves a block does so, and comes no later than any that does.
proof fn lemma_first_step(steps: Seq<Step>, n: int, block: BlockId)
    requires
        0 <= n <= steps.len(),
        proved_by(steps, n, block),
    ensures
        first_step(steps, block) < n,
        steps[first_step(steps, block) as int].block == block,
    decreases steps.len(),
{
    let k = choose|k: int| 0 <= k < n && (#[trigger] steps[k]).block == block;
    if steps[0].block != block {
        assert(steps.skip(1)[k - 1].block == block);
        lemma_first_step(steps.skip(1), n - 1, block);
    }
}

/// In the proof of a tree that goes through, a jump without a variant goes from a block to one
/// that is first proved at an earlier step. So no cycle is made of such jumps alone.
pub proof fn law_jumps_descend(cfg: Cfg, tree: BlockTree, from: BlockId, to: BlockId)
    requires
        check_tree(cfg, tree, Map::empty()) is Some,
        ({
            let steps = tree_steps(tree, Set::empty(), Set::empty());
            proved_by(steps, steps.len() as int, from)
        }),
        jumps_to(cfg, from, to),
    ensures
        ({
            let steps = tree_steps(tree, Set::empty(), Set::empty());
            &&& proved_by(steps, steps.len() as int, to)
            &&& first_step(steps, to) < first_step(steps, from)
        }),
{
    let steps = tree_steps(tree, Set::empty(), Set::empty());
    lemma_tree_sound(cfg, tree, Map::empty());
    assert(hyps_of(Map::empty()) =~= Set::empty());
    assert(known_of(Map::empty()) =~= Set::empty());
    lemma_first_step(steps, steps.len() as int, from);
    let i = first_step(steps, from) as int;
    assert(step_sound(cfg, steps[i]));
    assert(known_at(steps, Set::empty(), i));
    let j = choose|j: int|
        0 <= j < cfg.region(from).len() && cfg.term(#[trigger] cfg.region(from)[j])
            == Terminator::Jump(to, None);
    assert(jump_justified(cfg, steps[i], cfg.region(from)[j]));
    assert(steps[i].known.contains(to));
    lemma_first_step(steps, i, to);
    assert(steps[first_step(steps, to) as int].block == to);
}

/// A block that is ok stays ok in a context that has more entries.
proof fn lemma_block_ok_more(cfg: Cfg, ctx: Map<u32, bool>, more: Map<u32, bool>, id: BlockId)
    requires
        ctx.submap_of(more),
        block_ok(cfg, ctx, id),
    ensures
        block_ok(cfg, more, id),
{
    let region = cfg.region(id);
    assert forall|i: int| 0 <= i < region.len() implies jump_ok(
        cfg,
        more,
        #[trigger] region[i],
    ) by {
        assert(jump_ok(cfg, ctx, region[i]));
        if let Terminator::Jump(tgt, variant) = cfg.term(region[i]) {
            assert(ctx.dom().contains(tgt.0));
        }
    }
}

/// If a block is ok, so are all blocks that the flow from it leads to.
pub proof fn law_region_ok(cfg: Cfg, ctx: Map<u32, bool>, id: BlockId)
    requires
        block_ok(cfg, ctx, id),
    ensures
        forall|i: int|
            0 <= i < cfg.region(id).len() ==> block_ok(cfg, ctx, #[trigger] cfg.region(id)[i]),
    decreases cfg.region(id).len(),
{
    lemma_region(cfg, id);
    law_block_ok(cfg, ctx, id);
    match cfg.flow(id) {
        Flow::Stop => {},
        Flow::Then(tgt) => {
            law_region_ok(cfg, ctx, tgt);
        },
        Flow::Branch(bl1, bl2) => {
            law_region_ok(cfg, ctx, bl1);
            law_region_ok(cfg, ctx, bl2);
        },
    }
}

/// The blocks of a region can be proved one by one, in the order of the region, if the block
/// that the region belongs to is ok and none of them has been proved before.
pub proof fn law_region_sequence(cfg: Cfg, ctx: Map<u32, bool>, id: BlockId)
    requires
        block_ok(cfg, ctx, id),
        fresh(ctx, cfg.region(id)),
    ensures
        check_seq(cfg, as_trees(cfg.region(id)), ctx) == Some(mark(ctx, cfg.region(id), false)),
{
    law_region_ok(cfg, ctx, id);
    let region = cfg.region(id);
    assert(region.take(0) =~= Seq::empty());
    assert(mark(ctx, region.take(0), false) =~= ctx);
    assert(region.skip(0) =~= region);
    lemma_region_sequence(cfg, ctx, region, 0);
}

/// Blocks that are ok can be proved one by one after those before them.
proof fn lemma_region_sequence(cfg: Cfg, ctx: Map<u32, bool>, blocks: Seq<BlockId>, n: nat)
    requires
        n <= blocks.len(),
        fresh(ctx, blocks),
        forall|i: int| 0 <= i < blocks.len() ==> block_ok(cfg, ctx, #[trigger] blocks[i]),
    ensures
        check_seq(cfg, as_trees(blocks.skip(n as int)), mark(ctx, blocks.take(n as int), false))
            == Some(mark(ctx, blocks, false)),
    decreases blocks.len() - n,
{
    let done = blocks.take(n as int);
    let left = as_trees(blocks.skip(n as int));
    let known = mark(ctx, done, false);
    if n == blocks.len() {
        assert(done =~= blocks);
        assert(left.len() == 0);
    } else {
        let id = blocks[n as int];
        let next = blocks.take(n as int + 1);
        assert(left.last() == BlockTree::One(id));
        assert(left.drop_last() =~= as_trees(blocks.skip(n as int + 1)));
        assert(ctx.submap_of(known)) by {
            assert forall|k: u32| #[trigger] ctx.dom().contains(k) implies known.dom().contains(k)
                && ctx[k] == known[k] by {
                if done.contains(BlockId(k)) {
                    let i = done.index_of(BlockId(k));
                    assert(!ctx.contains_key(blocks[i].0));
                }
            }
        }
        lemma_block_ok_more(cfg, ctx, known, id);
        assert(!done.contains(id));
        assert(!known.contains_key(id.0));
        assert(next =~= done.push(id));
        assert forall|k: u32| next.contains(BlockId(k)) <==> done.contains(BlockId(k)) || k
            == id.0 by {
            assert(next[n as int] == id);
            if done.contains(BlockId(k)) {
                assert(next[done.index_of(BlockId(k))] == BlockId(k));
            }
        }
        assert(known.insert(id.0, false) =~= mark(ctx, next, false));
        assert(check_tree(cfg, left.last(), known) == check_one(cfg, id, known));
        lemma_region_sequence(cfg, ctx, blocks, n + 1);
    }
}

/// Whether the trees of an induction step hold the labels as single blocks at the positions
/// `pos`, in the order of the labels, and the first label in front of all else.
pub open spec fn labels_stand_at(
    labels: Seq<BlockId>,
    trees: Seq<BlockTree>,
    pos: Seq<int>,
) -> bool {
    &&& pos.len() == labels.len()
    &&& forall|i: int|
        0 <= i < pos.len() ==> 0 <= #[trigger] pos[i] < trees.len() && trees[pos[i]]
            == BlockTree::One(labels[i])
    &&& forall|i: int, j: int| 0 <= i < j < pos.len() ==> pos[i] < pos[j]
    &&& pos.len() > 0 ==> pos[0] == 0
}

/// Finds the labels in the trees of an induction step.
proof fn lemma_labels_stand(
    cfg: Cfg,
    labels: Seq<BlockId>,
    trees: Seq<BlockTree>,
    ctx: Map<u32, bool>,
) -> (pos: Seq<int>)
    requires
        check_body(cfg, labels, trees, ctx),
    ensures
        labels_stand_at(labels, trees, pos),
    decreases trees.len(),
{
    if labels.len() == 0 || trees.len() == 0 {
        Seq::empty()
    } else if trees.last() == BlockTree::One(labels.last()) {
        let before = lemma_labels_stand(cfg, labels.drop_last(), trees.drop_last(), ctx);
        let pos = before.push(trees.len() - 1);
        assert forall|i: int| 0 <= i < pos.len() implies 0 <= #[trigger] pos[i] < trees.len()
            && trees[pos[i]] == BlockTree::One(labels[i]) by {
            if i < before.len() {
                assert(0 <= before[i] < trees.drop_last().len());
            }
        }
        assert forall|i: int, j: int| 0 <= i < j < pos.len() implies pos[i] < pos[j] by {
            assert(0 <= before[i] < trees.drop_last().len());
        }
        if before.len() > 0 {
            assert(pos[0] == before[0]);
        } else {
            assert(check_body(cfg, labels.drop_last(), trees.drop_last(), ctx));
            assert(labels.drop_last().len() == 0);
            assert(trees.drop_last().len() == 0) by {
                reveal_with_fuel(check_body, 2);
            }
        }
        pos
    } else {
        let after = check_tree(cfg, trees.last(), ctx)->0;
        let pos = lemma_labels_stand(cfg, labels, trees.drop_last(), after);
        assert forall|i: int| 0 <= i < pos.len() implies 0 <= #[trigger] pos[i] < trees.len()
            && trees[pos[i]] == BlockTree::One(labels[i]) by {
            assert(0 <= pos[i] < trees.drop_last().len());
        }
        pos
    }
}

/// The body of an induction that goes through includes all labels, as single blocks and in the
/// order of the labels. An iterator over the body works backward, so it proves them in reverse
/// order.
pub proof fn law_body_includes_labels(
    cfg: Cfg,
    labels: Seq<BlockId>,
    trees: Seq<BlockTree>,
    ctx: Map<u32, bool>,
)
    requires
        check_group(cfg, labels, trees, ctx) is Some,
    ensures
        exists|pos: Seq<int>| labels_stand_at(labels, trees, pos),
{
    let pos = lemma_labels_stand(cfg, labels, trees, mark(ctx, labels, true));
    assert(labels_stand_at(labels, trees, pos));
}

} // verus!
