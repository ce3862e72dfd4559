//! What the check of a block tree comes down to: a sequence is its trees one after another, and
//! an induction is its labels as single blocks, in order, with any proofs between them.
use crate::block_tree::{as_trees, pending, BlockProofTree, BlockTreeIter};
use crate::check::{
    block_ok, check_body, check_group, check_one, check_seq, check_tree, fresh, left_by_seq,
    left_by_tree, mark,
};
use crate::ids::BlockId;
use crate::mir::{law_flow_ends, lemma_region, BlockTree, Cfg, Terminator};
use crate::soundness::law_context_grows;
use vstd::prelude::*;

verus! {

/// A single block is proved exactly if it is new, the flow from it comes to an end, each jump
/// without a variant that the flow leads to goes to a block that has been proved, and each jump
/// with one goes to a hypothesis. It is then proved, and all else is as before.
pub proof fn law_one(cfg: Cfg, id: BlockId, ctx: Map<u32, bool>)
    ensures
        check_tree(cfg, BlockTree::One(id), ctx) is Some <==> {
            &&& !ctx.contains_key(id.0)
            &&& cfg.ends(id)
            &&& forall|i: int|
                0 <= i < cfg.region(id).len() ==> (cfg.term(#[trigger] cfg.region(id)[i]) matches
                    Terminator::Jump(tgt, variant) ==> ctx.contains_key(tgt.0) && ctx[tgt.0] == (
                variant is Some))
        },
        check_tree(cfg, BlockTree::One(id), ctx) matches Some(after) ==> {
            &&& after.dom() == ctx.dom().insert(id.0)
            &&& !after[id.0]
            &&& forall|k: u32| #[trigger] ctx.contains_key(k) ==> after[k] == ctx[k]
        },
{
    assert(check_tree(cfg, BlockTree::One(id), ctx) == check_one(cfg, id, ctx));
}

/// A sequence goes through whenever each of its trees, of whatever kind, goes through in the
/// context that the trees behind it leave. The contexts are given: `c[i + 1]` is the one in
/// which tree `i` is proved, and `c[i]` the one after that.
pub proof fn law_sequence_complete(cfg: Cfg, args: Vec<BlockTree>, c: Seq<Map<u32, bool>>)
    requires
        c.len() == args@.len() + 1,
        forall|i: int|
            0 <= i < args@.len() ==> check_tree(cfg, #[trigger] args@[i], c[i + 1]) == Some(c[i]),
    ensures
        check_tree(cfg, BlockTree::Many(args), c[args@.len() as int]) == Some(c[0]),
{
    lemma_prefix_complete(cfg, args@, c, args@.len() as int);
    assert(args@.take(args@.len() as int) =~= args@);
}

/// The first trees of a sequence go through in the context that those behind them leave.
proof fn lemma_prefix_complete(cfg: Cfg, trees: Seq<BlockTree>, c: Seq<Map<u32, bool>>, n: int)
    requires
        0 <= n <= trees.len(),
        c.len() == trees.len() + 1,
        forall|i: int|
            0 <= i < n ==> check_tree(cfg, #[trigger] trees[i], c[i + 1]) == Some(c[i]),
    ensures
        check_seq(cfg, trees.take(n), c[n]) == Some(c[0]),
    decreases n,
{
    if n > 0 {
        lemma_prefix_complete(cfg, trees, c, n - 1);
        assert(trees.take(n).last() == trees[n - 1]);
        assert(trees.take(n).drop_last() =~= trees.take(n - 1));
    }
}

/// A sequence goes through only if each of its trees goes through in the context that the trees
/// behind it leave. The result holds these contexts.
pub proof fn law_sequence_sound(cfg: Cfg, args: Vec<BlockTree>, ctx: Map<u32, bool>) -> (c: Seq<
    Map<u32, bool>,
>)
    requires
        check_tree(cfg, BlockTree::Many(args), ctx) is Some,
    ensures
        c.len() == args@.len() + 1,
        c[args@.len() as int] == ctx,
        check_tree(cfg, BlockTree::Many(args), ctx) == Some(c[0]),
        forall|i: int|
            0 <= i < args@.len() ==> check_tree(cfg, #[trigger] args@[i], c[i + 1]) == Some(c[i]),
{
    lemma_seq_contexts(cfg, args@, ctx)
}

/// The contexts of a sequence that goes through.
proof fn lemma_seq_contexts(cfg: Cfg, trees: Seq<BlockTree>, ctx: Map<u32, bool>) -> (c: Seq<
    Map<u32, bool>,
>)
    requires
        check_seq(cfg, trees, ctx) is Some,
    ensures
        c.len() == trees.len() + 1,
        c[trees.len() as int] == ctx,
        check_seq(cfg, trees, ctx) == Some(c[0]),
        forall|i: int|
            0 <= i < trees.len() ==> check_tree(cfg, #[trigger] trees[i], c[i + 1]) == Some(c[i]),
    decreases trees.len(),
{
    if trees.len() == 0 {
        seq![ctx]
    } else {
        let after = check_tree(cfg, trees.last(), ctx)->0;
        let before = lemma_seq_contexts(cfg, trees.drop_last(), after);
        let c = before.push(ctx);
        assert forall|i: int| 0 <= i < trees.len() implies check_tree(
            cfg,
            #[trigger] trees[i],
            c[i + 1],
        ) == Some(c[i]) by {
            if i < trees.len() - 1 {
                assert(trees.drop_last()[i] == trees[i]);
            }
        }
        c
    }
}

/// A sequence does not go through if one of its trees does not go through in the context that
/// the trees behind it leave, and what is left is what that tree leaves.
pub proof fn law_sequence_refused(cfg: Cfg, args: Vec<BlockTree>, c: Seq<Map<u32, bool>>, n: int)
    requires
        0 <= n < args@.len(),
        c.len() == args@.len() + 1,
        forall|i: int|
            n < i < args@.len() ==> check_tree(cfg, #[trigger] args@[i], c[i + 1]) == Some(c[i]),
        check_tree(cfg, args@[n], c[n + 1]) is None,
    ensures
        check_tree(cfg, BlockTree::Many(args), c[args@.len() as int]) is None,
        left_by_tree(cfg, BlockTree::Many(args), c[args@.len() as int]) == left_by_tree(
            cfg,
            args@[n],
            c[n + 1],
        ),
{
    lemma_seq_refused(cfg, args@, c, n, args@.len() as int);
    assert(args@.take(args@.len() as int) =~= args@);
}

/// The first trees of a sequence do not go through if one of them does not.
proof fn lemma_seq_refused(
    cfg: Cfg,
    trees: Seq<BlockTree>,
    c: Seq<Map<u32, bool>>,
    n: int,
    m: int,
)
    requires
        0 <= n < m <= trees.len(),
        c.len() == trees.len() + 1,
        forall|i: int|
            n < i < trees.len() ==> check_tree(cfg, #[trigger] trees[i], c[i + 1]) == Some(c[i]),
        check_tree(cfg, trees[n], c[n + 1]) is None,
    ensures
        check_seq(cfg, trees.take(m), c[m]) is None,
        left_by_seq(cfg, trees.take(m), c[m]) == left_by_tree(cfg, trees[n], c[n + 1]),
    decreases m,
{
    assert(trees.take(m).last() == trees[m - 1]);
    assert(trees.take(m).drop_last() =~= trees.take(m - 1));
    if m - 1 > n {
        lemma_seq_refused(cfg, trees, c, n, m - 1);
    }
}

/// A single block and an induction that do not go through leave the context as it was.
pub proof fn law_refused_leaves(
    cfg: Cfg,
    id: BlockId,
    data: Box<(Vec<BlockId>, Vec<BlockTree>)>,
    ctx: Map<u32, bool>,
)
    ensures
        left_by_tree(cfg, BlockTree::One(id), ctx) == ctx,
        left_by_tree(cfg, BlockTree::LabelGroup(data), ctx) == ctx,
{
}

/// An induction goes through whenever its labels are new and different from each other, stand
/// among its trees as single blocks, in their order and with the first one in front, each label
/// is ok in the context of its place, and each of the other trees, of whatever kind, goes
/// through. At the end of the trees the labels are hypotheses, a label leaves the context as it
/// is, and any other tree leaves what it proves. After the induction the labels are proved, and
/// all else is as before it.
pub proof fn law_induction_complete(
    cfg: Cfg,
    data: Box<(Vec<BlockId>, Vec<BlockTree>)>,
    ctx: Map<u32, bool>,
    d: Seq<Map<u32, bool>>,
    pos: Seq<int>,
)
    requires
        forall|i: int, j: int| 0 <= i < j < data.0@.len() ==> data.0@[i] != data.0@[j],
        forall|i: int| 0 <= i < data.0@.len() ==> !ctx.contains_key(#[trigger] data.0@[i].0),
        data.0@.len() == 0 ==> data.1@.len() == 0,
        d.len() == data.1@.len() + 1,
        forall|k: u32| #[trigger]
            d[data.1@.len() as int].contains_key(k) <==> ctx.contains_key(k) || data.0@.contains(
                BlockId(k),
            ),
        forall|k: u32| #[trigger]
            d[data.1@.len() as int].contains_key(k) ==> d[data.1@.len() as int][k] == (
            data.0@.contains(BlockId(k)) || ctx[k]),
        pos.len() == data.0@.len(),
        forall|i: int| 0 <= i < pos.len() ==> 0 <= #[trigger] pos[i] < data.1@.len(),
        forall|i: int, j: int| 0 <= i < j < pos.len() ==> pos[i] < pos[j],
        pos.len() > 0 ==> pos[0] == 0,
        forall|i: int|
            0 <= i < pos.len() ==> {
                &&& data.1@[#[trigger] pos[i]] == BlockTree::One(data.0@[i])
                &&& block_ok(cfg, d[pos[i] + 1], data.0@[i])
                &&& d[pos[i]] == d[pos[i] + 1]
            },
        forall|t: int|
            0 <= t < data.1@.len() && !pos.contains(t) ==> check_tree(
                cfg,
                #[trigger] data.1@[t],
                d[t + 1],
            ) == Some(d[t]),
    ensures
        check_tree(cfg, BlockTree::LabelGroup(data), ctx) is Some,
        ({
            let after = check_tree(cfg, BlockTree::LabelGroup(data), ctx)->0;
            &&& forall|k: u32| #[trigger]
                after.contains_key(k) <==> ctx.contains_key(k) || data.0@.contains(BlockId(k))
            &&& forall|k: u32| #[trigger]
                after.contains_key(k) ==> after[k] == (!data.0@.contains(BlockId(k)) && ctx[k])
        }),
{
    let labels = data.0@;
    let trees = data.1@;
    let n = trees.len() as int;
    assert(d[n] =~= mark(ctx, labels, true));
    assert(fresh(ctx, labels));
    assert forall|i: int| 0 <= i < labels.len() implies d[n].contains_key(
        #[trigger] labels[i].0,
    ) by {
        assert(BlockId(labels[i].0) == labels[i]);
        assert(labels.contains(BlockId(labels[i].0)));
    }
    lemma_induction_complete(cfg, labels, trees, d, pos, labels.len() as int, n);
    assert(labels.take(labels.len() as int) =~= labels);
    assert(trees.take(n) =~= trees);
    assert(check_group(cfg, labels, trees, ctx) == Some(mark(ctx, labels, false)));
}

/// The first trees of an induction prove its first labels.
proof fn lemma_induction_complete(
    cfg: Cfg,
    labels: Seq<BlockId>,
    trees: Seq<BlockTree>,
    d: Seq<Map<u32, bool>>,
    pos: Seq<int>,
    m: int,
    n: int,
)
    requires
        0 <= m <= labels.len(),
        0 <= n <= trees.len(),
        labels.len() == 0 ==> trees.len() == 0,
        d.len() == trees.len() + 1,
        pos.len() == labels.len(),
        forall|i: int| 0 <= i < pos.len() ==> 0 <= #[trigger] pos[i] < trees.len(),
        forall|i: int, j: int| 0 <= i < j < pos.len() ==> pos[i] < pos[j],
        pos.len() > 0 ==> pos[0] == 0,
        forall|i: int|
            0 <= i < pos.len() ==> {
                &&& trees[#[trigger] pos[i]] == BlockTree::One(labels[i])
                &&& block_ok(cfg, d[pos[i] + 1], labels[i])
                &&& d[pos[i]] == d[pos[i] + 1]
            },
        forall|t: int|
            0 <= t < trees.len() && !pos.contains(t) ==> check_tree(
                cfg,
                #[trigger] trees[t],
                d[t + 1],
            ) == Some(d[t]),
        forall|i: int| 0 <= i < pos.len() ==> (#[trigger] pos[i] < n <==> i < m),
        forall|i: int| 0 <= i < labels.len() ==> d[n].contains_key(#[trigger] labels[i].0),
    ensures
        check_body(cfg, labels.take(m), trees.take(n), d[n]),
    decreases n,
{
    if n == 0 {
        if m > 0 {
            assert(pos[0] < n);
        }
    } else {
        assert(pos[0] < n);
        let tree = trees[n - 1];
        assert(trees.take(n).last() == tree);
        assert(trees.take(n).drop_last() =~= trees.take(n - 1));
        assert(labels.take(m).last() == labels[m - 1]);
        assert(pos[m - 1] < n);
        if pos[m - 1] == n - 1 {
            assert(labels.take(m).drop_last() =~= labels.take(m - 1));
            assert forall|i: int| 0 <= i < pos.len() implies (#[trigger] pos[i] < n - 1 <==> i < m
                - 1) by {
                if i < m - 1 {
                    assert(pos[i] < pos[m - 1]);
                }
            }
            lemma_induction_complete(cfg, labels, trees, d, pos, m - 1, n - 1);
        } else {
            assert(!pos.contains(n - 1)) by {
                if pos.contains(n - 1) {
                    let i = pos.index_of(n - 1);
                    assert(pos[i] < n);
                    if i < m - 1 {
                        assert(pos[i] < pos[m - 1]);
                    }
                }
            }
            assert(check_tree(cfg, tree, d[n]) == Some(d[n - 1]));
            law_context_grows(cfg, tree, d[n]);
            assert(d[n].contains_key(labels[m - 1].0));
            assert forall|i: int| 0 <= i < labels.len() implies d[n - 1].contains_key(
                #[trigger] labels[i].0,
            ) by {
                assert(d[n].contains_key(labels[i].0));
            }
            lemma_induction_complete(cfg, labels, trees, d, pos, m, n - 1);
        }
    }
}

/// An induction goes through only if its labels are new and different from each other, and
/// stand among its trees as single blocks, in their order and with the first one in front, such
/// that each label is ok in the context of its place and each of the other trees goes through.
/// The result holds the contexts and the places of the labels.
pub proof fn law_induction_sound(
    cfg: Cfg,
    data: Box<(Vec<BlockId>, Vec<BlockTree>)>,
    ctx: Map<u32, bool>,
) -> (r: (Seq<Map<u32, bool>>, Seq<int>))
    requires
        check_tree(cfg, BlockTree::LabelGroup(data), ctx) is Some,
    ensures
        forall|i: int, j: int| 0 <= i < j < data.0@.len() ==> data.0@[i] != data.0@[j],
        forall|i: int| 0 <= i < data.0@.len() ==> !ctx.contains_key(#[trigger] data.0@[i].0),
        data.0@.len() == 0 ==> data.1@.len() == 0,
        r.0.len() == data.1@.len() + 1,
        forall|k: u32| #[trigger]
            r.0[data.1@.len() as int].contains_key(k) <==> ctx.contains_key(k) || data.0@.contains(
                BlockId(k),
            ),
        forall|k: u32| #[trigger]
            r.0[data.1@.len() as int].contains_key(k) ==> r.0[data.1@.len() as int][k] == (
            data.0@.contains(BlockId(k)) || ctx[k]),
        r.1.len() == data.0@.len(),
        forall|i: int| 0 <= i < r.1.len() ==> 0 <= #[trigger] r.1[i] < data.1@.len(),
        forall|i: int, j: int| 0 <= i < j < r.1.len() ==> r.1[i] < r.1[j],
        r.1.len() > 0 ==> r.1[0] == 0,
        forall|i: int|
            0 <= i < r.1.len() ==> {
                &&& data.1@[#[trigger] r.1[i]] == BlockTree::One(data.0@[i])
                &&& block_ok(cfg, r.0[r.1[i] + 1], data.0@[i])
                &&& r.0[r.1[i]] == r.0[r.1[i] + 1]
            },
        forall|t: int|
            0 <= t < data.1@.len() && !r.1.contains(t) ==> check_tree(
                cfg,
                #[trigger] data.1@[t],
                r.0[t + 1],
            ) == Some(r.0[t]),
{
    let start = mark(ctx, data.0@, true);
    assert(check_group(cfg, data.0@, data.1@, ctx) is Some);
    lemma_body_contexts(cfg, data.0@, data.1@, start)
}

/// The contexts of an induction step that goes through, and the places of the labels.
proof fn lemma_body_contexts(
    cfg: Cfg,
    labels: Seq<BlockId>,
    trees: Seq<BlockTree>,
    ctx: Map<u32, bool>,
) -> (r: (Seq<Map<u32, bool>>, Seq<int>))
    requires
        check_body(cfg, labels, trees, ctx),
    ensures
        labels.len() == 0 ==> trees.len() == 0,
        r.0.len() == trees.len() + 1,
        r.0[trees.len() as int] == ctx,
        r.1.len() == labels.len(),
        forall|i: int| 0 <= i < r.1.len() ==> 0 <= #[trigger] r.1[i] < trees.len(),
        forall|i: int, j: int| 0 <= i < j < r.1.len() ==> r.1[i] < r.1[j],
        r.1.len() > 0 ==> r.1[0] == 0,
        forall|i: int|
            0 <= i < r.1.len() ==> {
                &&& trees[#[trigger] r.1[i]] == BlockTree::One(labels[i])
                &&& block_ok(cfg, r.0[r.1[i] + 1], labels[i])
                &&& r.0[r.1[i]] == r.0[r.1[i] + 1]
            },
        forall|t: int|
            0 <= t < trees.len() && !r.1.contains(t) ==> check_tree(
                cfg,
                #[trigger] trees[t],
                r.0[t + 1],
            ) == Some(r.0[t]),
    decreases trees.len(),
{
    if trees.len() == 0 {
        (seq![ctx], Seq::empty())
    } else {
        let n = trees.len() - 1;
        let label = trees.last() == BlockTree::One(labels.last());
        let before = if label {
            lemma_body_contexts(cfg, labels.drop_last(), trees.drop_last(), ctx)
        } else {
            let after = check_tree(cfg, trees.last(), ctx)->0;
            lemma_body_contexts(cfg, labels, trees.drop_last(), after)
        };
        let d = before.0.push(ctx);
        let pos = if label {
            before.1.push(n)
        } else {
            before.1
        };
        assert(forall|t: int| 0 <= t < n ==> #[trigger] trees.drop_last()[t] == trees[t]);
        assert forall|i: int| 0 <= i < pos.len() implies {
            &&& trees[#[trigger] pos[i]] == BlockTree::One(labels[i])
            &&& block_ok(cfg, d[pos[i] + 1], labels[i])
            &&& d[pos[i]] == d[pos[i] + 1]
        } by {
            if i < before.1.len() {
                let p = before.1[i];
                assert(trees.drop_last()[p] == trees[p]);
            }
        }
        assert forall|t: int| 0 <= t < trees.len() && !pos.contains(t) implies check_tree(
            cfg,
            #[trigger] trees[t],
            d[t + 1],
        ) == Some(d[t]) by {
            if label {
                assert(pos[pos.len() - 1] == n);
            }
            if t < n {
                if before.1.contains(t) {
                    let i = before.1.index_of(t);
                    assert(pos[i] == t);
                }
                assert(trees.drop_last()[t] == trees[t]);
            }
        }
        (d, pos)
    }
}

/// A block is ok exactly if the flow from it comes to an end, each jump without a variant that
/// the flow leads to goes to a block that has been proved, and each jump with one goes to a
/// hypothesis, whether or not the block is in the context itself.
pub proof fn law_block(cfg: Cfg, id: BlockId, ctx: Map<u32, bool>)
    ensures
        block_ok(cfg, ctx, id) <==> {
            &&& cfg.ends(id)
            &&& forall|i: int|
                0 <= i < cfg.region(id).len() ==> (cfg.term(#[trigger] cfg.region(id)[i]) matches
                    Terminator::Jump(tgt, variant) ==> ctx.contains_key(tgt.0) && ctx[tgt.0] == (
                variant is Some))
        },
{
}

/// The flow from a block comes to an end whenever there is a set of finished blocks of the
/// graph that holds it and all that its blocks go on to, by a jump to a block of their own, an
/// assertion or a call that comes back, or a branch, and a measure that gets smaller on the way.
pub proof fn law_ends_complete(
    cfg: Cfg,
    blocks: Set<BlockId>,
    rank: spec_fn(BlockId) -> nat,
    id: BlockId,
)
    requires
        blocks.contains(id),
        forall|b: BlockId| #[trigger]
            blocks.contains(b) ==> {
                &&& b.0 < cfg.blocks@.len()
                &&& cfg.blocks@[b.0 as int].term is Some
                &&& match cfg.blocks@[b.0 as int].term->0 {
                    Terminator::Jump1(t)
                    | Terminator::Assert(true, t)
                    | Terminator::Call { reach: true, tgt: t } => blocks.contains(t) && rank(t)
                        < rank(b),
                    Terminator::If(t, u) => {
                        &&& blocks.contains(t) && rank(t) < rank(b)
                        &&& blocks.contains(u) && rank(u) < rank(b)
                    },
                    _ => true,
                }
            },
    ensures
        cfg.ends(id),
{
    lemma_rank_bounds(cfg, blocks, rank, id, rank(id));
    law_flow_ends(cfg, id, rank(id));
}

/// The measure bounds the length of the flow.
proof fn lemma_rank_bounds(
    cfg: Cfg,
    blocks: Set<BlockId>,
    rank: spec_fn(BlockId) -> nat,
    id: BlockId,
    n: nat,
)
    requires
        blocks.contains(id),
        rank(id) <= n,
        forall|b: BlockId| #[trigger]
            blocks.contains(b) ==> {
                &&& b.0 < cfg.blocks@.len()
                &&& cfg.blocks@[b.0 as int].term is Some
                &&& match cfg.blocks@[b.0 as int].term->0 {
                    Terminator::Jump1(t)
                    | Terminator::Assert(true, t)
                    | Terminator::Call { reach: true, tgt: t } => blocks.contains(t) && rank(t)
                        < rank(b),
                    Terminator::If(t, u) => {
                        &&& blocks.contains(t) && rank(t) < rank(b)
                        &&& blocks.contains(u) && rank(u) < rank(b)
                    },
                    _ => true,
                }
            },
    ensures
        cfg.ends_within(id, n),
    decreases n,
{
    match cfg.term(id) {
        Terminator::Jump1(t)
        | Terminator::Assert(true, t)
        | Terminator::Call { reach: true, tgt: t } => {
            lemma_rank_bounds(cfg, blocks, rank, t, (n - 1) as nat);
        },
        Terminator::If(t, u) => {
            lemma_rank_bounds(cfg, blocks, rank, t, (n - 1) as nat);
            lemma_rank_bounds(cfg, blocks, rank, u, (n - 1) as nat);
        },
        _ => {},
    }
}

/// Where the flow from a block comes to an end, the block is a finished block of the graph, the
/// flow from what it goes on to comes to an end, and its region is that of what it goes on to,
/// with the second of two branches in front, followed by the block itself.
pub proof fn law_ends_sound(cfg: Cfg, id: BlockId)
    requires
        cfg.ends(id),
    ensures
        id.0 < cfg.blocks@.len(),
        cfg.blocks@[id.0 as int].term is Some,
        match cfg.blocks@[id.0 as int].term->0 {
            Terminator::Jump1(t)
            | Terminator::Assert(true, t)
            | Terminator::Call { reach: true, tgt: t } => {
                &&& cfg.ends(t)
                &&& cfg.region(id) == cfg.region(t) + seq![id]
            },
            Terminator::If(t, u) => {
                &&& cfg.ends(t) && cfg.ends(u)
                &&& cfg.region(id) == cfg.region(u) + cfg.region(t) + seq![id]
            },
            _ => cfg.region(id) == seq![id],
        },
{
    lemma_region(cfg, id);
}

/// What is left of a stack: a block that is marked `true` comes as it is, one that is marked
/// `false` with its region, and the top of the stack first.
pub proof fn law_pending(cfg: Cfg, stack: Seq<(bool, BlockId)>, id: BlockId)
    ensures
        pending(cfg, Seq::empty()) == Seq::<BlockId>::empty(),
        pending(cfg, stack.push((true, id))) == seq![id] + pending(cfg, stack),
        pending(cfg, stack.push((false, id))) == cfg.region(id) + pending(cfg, stack),
{
    assert(stack.push((true, id)).drop_last() =~= stack);
    assert(stack.push((false, id)).drop_last() =~= stack);
}

/// The trees that are still to come are those of the slice, and behind them the pending blocks
/// as single blocks, in reverse.
pub proof fn law_trees_to_come(iter: BlockTreeIter<'_>, i: int)
    ensures
        iter.trees().len() == iter.slice().len() + pending(
            *iter.proc().cfg,
            iter.stack_seq(),
        ).len(),
        0 <= i < iter.slice().len() ==> iter.trees()[i] == iter.slice()[i],
        iter.slice().len() <= i < iter.trees().len() ==> iter.trees()[i] == BlockTree::One(
            pending(*iter.proc().cfg, iter.stack_seq())[iter.trees().len() - 1 - i],
        ),
{
}

/// A sequence of proofs goes through whenever each of the trees that are still to come, of
/// whatever kind, goes through in the context that the trees behind it leave.
pub proof fn law_sequence_outcome<'a>(iter: BlockTreeIter<'a>, c: Seq<Map<u32, bool>>)
    requires
        c.len() == iter.trees().len() + 1,
        forall|i: int|
            0 <= i < iter.trees().len() ==> check_tree(
                *iter.proc().cfg,
                #[trigger] iter.trees()[i],
                c[i + 1],
            ) == Some(c[i]),
    ensures
        BlockProofTree::Sequence(iter).outcome(c[iter.trees().len() as int]) == Some(c[0]),
{
    lemma_prefix_complete(*iter.proc().cfg, iter.trees(), c, iter.trees().len() as int);
    assert(iter.trees().take(iter.trees().len() as int) =~= iter.trees());
}

/// A sequence of proofs does not go through if one of the trees that are still to come does not
/// go through in the context that the trees behind it leave, and what is left is what that tree
/// leaves.
pub proof fn law_sequence_outcome_refused<'a>(
    iter: BlockTreeIter<'a>,
    c: Seq<Map<u32, bool>>,
    n: int,
)
    requires
        0 <= n < iter.trees().len(),
        c.len() == iter.trees().len() + 1,
        forall|i: int|
            n < i < iter.trees().len() ==> check_tree(
                *iter.proc().cfg,
                #[trigger] iter.trees()[i],
                c[i + 1],
            ) == Some(c[i]),
        check_tree(*iter.proc().cfg, iter.trees()[n], c[n + 1]) is None,
    ensures
        BlockProofTree::Sequence(iter).outcome(c[iter.trees().len() as int]) is None,
        BlockProofTree::Sequence(iter).left(c[iter.trees().len() as int]) == left_by_tree(
            *iter.proc().cfg,
            iter.trees()[n],
            c[n + 1],
        ),
{
    let trees = iter.trees();
    lemma_seq_refused(*iter.proc().cfg, trees, c, n, trees.len() as int);
    assert(trees.take(trees.len() as int) =~= trees);
}

/// The proof of a tree has the outcome of checking that tree in the graph of its procedure, and
/// leaves what the tree leaves.
pub proof fn law_outcome<'a>(
    tree_proof: BlockProofTree<'a>,
    proc: crate::procs::Proc<'a>,
    tree: BlockTree,
    ctx: Map<u32, bool>,
)
    requires
        tree_proof.shows(proc, tree),
    ensures
        tree_proof.outcome(ctx) == check_tree(*proc.cfg, tree, ctx),
        tree_proof.left(ctx) == left_by_tree(*proc.cfg, tree, ctx),
{
}

} // verus!
