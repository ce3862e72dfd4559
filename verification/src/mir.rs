//! The control flow graph of a procedure.
use crate::ids::{BlockId, IdxVec};
use vstd::prelude::*;

verus! {

/// An operand of the intermediate representation, by its number.
#[derive(Clone, Copy, Debug, PartialEq, Eq, Structural)]
pub struct Operand(pub u32);

/// How control leaves a basic block.
///
/// Of each terminator this holds what decides where control goes.
#[derive(Clone, Copy, Debug, PartialEq, Eq, Structural)]
pub enum Terminator {
    /// Jump to a block that other blocks jump to as well. The operand is the value of the
    /// variant, for a jump that relies on the hypothesis of an induction.
    Jump(BlockId, Option<Operand>),
    /// Continue with a block that has no other predecessor.
    Jump1(BlockId),
    /// Return from the procedure.
    Return,
    /// A point that is never reached.
    Unreachable,
    /// Continue with the first block if a condition holds, and else with the second.
    If(BlockId, BlockId),
    /// Check a condition. The flag says whether the block that follows can be reached.
    Assert(bool, BlockId),
    /// Call a function. The flag says whether the function can return to the block that follows.
    Call {
        /// Whether the call can return.
        reach: bool,
        /// The block that follows the call.
        tgt: BlockId,
    },
    /// Leave the program.
    Exit,
    /// The block has been removed.
    Dead,
}

/// A basic block.
#[derive(Clone, Copy, Debug, PartialEq, Eq, Structural)]
pub struct BasicBlock {
    /// How control leaves the block, or `None` while the block is under construction.
    pub term: Option<Terminator>,
}

/// The blocks of a procedure, arranged by the way in which they are to be proved.
#[derive(Debug)]
pub enum BlockTree {
    /// Blocks that take part in cycles: the labels that can be jumped back to, and the trees
    /// that prove them.
    LabelGroup(Box<(Vec<BlockId>, Vec<BlockTree>)>),
    /// A sequence of trees, in the order of control flow.
    Many(Vec<BlockTree>),
    /// A block, with the blocks that only it leads to.
    One(BlockId),
}

/// A control flow graph.
#[derive(Debug)]
pub struct Cfg {
    /// The basic blocks.
    pub blocks: IdxVec<BlockId, BasicBlock>,
    /// The arrangement of the blocks for the proof.
    pub tree: BlockTree,
}

impl BasicBlock {
    /// How control leaves the block.
    pub fn terminator(&self) -> (r: &Terminator)
        requires
            self.term is Some,
        ensures
            *r == self.term->0,
    {
        self.term.as_ref().unwrap()
    }
}

/// Where control goes from a block, other than by a jump to a shared block.
pub enum Flow {
    /// Nowhere: the region of blocks that belong together ends here.
    Stop,
    /// On to one block.
    Then(BlockId),
    /// On to one of two blocks.
    Branch(BlockId, BlockId),
}

impl Cfg {
    /// Whether `id` is a block of this graph whose construction is finished.
    pub open spec fn has(self, id: BlockId) -> bool {
        &&& id.0 < self.blocks@.len()
        &&& self.blocks@[id.0 as int].term is Some
    }

    /// How control leaves the block `id`.
    pub open spec fn term(self, id: BlockId) -> Terminator {
        self.blocks@[id.0 as int].term->0
    }

    /// Where control goes from the block `id`, other than by a jump to a shared block.
    pub open spec fn flow(self, id: BlockId) -> Flow {
        match self.term(id) {
            Terminator::Jump1(tgt) => Flow::Then(tgt),
            Terminator::Assert(true, tgt) => Flow::Then(tgt),
            Terminator::Call { reach: true, tgt } => Flow::Then(tgt),
            Terminator::If(bl1, bl2) => Flow::Branch(bl1, bl2),
            _ => Flow::Stop,
        }
    }

    /// Whether every walk along the flow from `id` stops after at most `n` steps, and meets
    /// finished blocks of the graph only.
    pub open spec fn ends_within(self, id: BlockId, n: nat) -> bool
        decreases n,
    {
        &&& self.has(id)
        &&& match self.flow(id) {
            Flow::Stop => true,
            Flow::Then(tgt) => n > 0 && self.ends_within(tgt, (n - 1) as nat),
            Flow::Branch(bl1, bl2) => n > 0 && self.ends_within(bl1, (n - 1) as nat)
                && self.ends_within(bl2, (n - 1) as nat),
        }
    }

    /// The blocks that the flow from `id` leads to in at most `n` steps. A block stands behind
    /// those that it leads to, and of two branches the second comes first.
    pub open spec fn region_within(self, id: BlockId, n: nat) -> Seq<BlockId>
        decreases n,
    {
        if n == 0 {
            seq![id]
        } else {
            match self.flow(id) {
                Flow::Stop => seq![id],
                Flow::Then(tgt) => self.region_within(tgt, (n - 1) as nat).push(id),
                Flow::Branch(bl1, bl2) => (self.region_within(bl2, (n - 1) as nat)
                    + self.region_within(bl1, (n - 1) as nat)).push(id),
            }
        }
    }

    /// Whether the flow from `id` comes to an end. No walk without a cycle has more steps than
    /// the graph has blocks: see [`law_flow_ends`].
    pub open spec fn ends(self, id: BlockId) -> bool {
        self.ends_within(id, self.blocks@.len())
    }

    /// The region of `id`: the blocks that the flow from `id` leads to, each behind those that
    /// it leads to itself.
    pub open spec fn region(self, id: BlockId) -> Seq<BlockId> {
        self.region_within(id, self.blocks@.len())
    }

    /// Whether `n` is the length of the longest walk along the flow from `id`.
    spec fn has_depth(self, id: BlockId, n: nat) -> bool {
        &&& self.ends_within(id, n)
        &&& n > 0 ==> !self.ends_within(id, (n - 1) as nat)
    }
}

/// A walk that ends within a number of steps also ends within more steps, and leads to the
/// same blocks.
proof fn lemma_ends_within_more(cfg: Cfg, id: BlockId, n: nat, m: nat)
    requires
        n <= m,
        cfg.ends_within(id, n),
    ensures
        cfg.ends_within(id, m),
        cfg.region_within(id, m) == cfg.region_within(id, n),
    decreases n,
{
    match cfg.flow(id) {
        Flow::Stop => {},
        Flow::Then(tgt) => {
            lemma_ends_within_more(cfg, tgt, (n - 1) as nat, (m - 1) as nat);
        },
        Flow::Branch(bl1, bl2) => {
            lemma_ends_within_more(cfg, bl1, (n - 1) as nat, (m - 1) as nat);
            lemma_ends_within_more(cfg, bl2, (n - 1) as nat, (m - 1) as nat);
        },
    }
}

/// A flow that ends has a depth.
proof fn lemma_depth_exists(cfg: Cfg, id: BlockId, n: nat) -> (d: nat)
    requires
        cfg.ends_within(id, n),
    ensures
        d <= n,
        cfg.has_depth(id, d),
    decreases n,
{
    if n > 0 && cfg.ends_within(id, (n - 1) as nat) {
        lemma_depth_exists(cfg, id, (n - 1) as nat)
    } else {
        n
    }
}

/// A block has one depth only.
proof fn lemma_depth_unique(cfg: Cfg, id: BlockId, n: nat, m: nat)
    requires
        cfg.has_depth(id, n),
        cfg.has_depth(id, m),
    ensures
        n == m,
{
    if n < m {
        lemma_ends_within_more(cfg, id, n, (m - 1) as nat);
    } else if m < n {
        lemma_ends_within_more(cfg, id, m, (n - 1) as nat);
    }
}

/// Below a block of some depth there are blocks of every smaller depth: `w[j]` has depth `j`.
proof fn lemma_depths_below(cfg: Cfg, id: BlockId, n: nat) -> (w: Seq<int>)
    requires
        cfg.has_depth(id, n),
    ensures
        w.len() == n + 1,
        forall|j: int|
            0 <= j <= n ==> 0 <= #[trigger] w[j] < cfg.blocks@.len() && w[j] <= u32::MAX
                && cfg.has_depth(BlockId(w[j] as u32), j as nat),
    decreases n,
{
    if n == 0 {
        seq![id.0 as int]
    } else {
        let k = (n - 1) as nat;
        let below = match cfg.flow(id) {
            Flow::Stop => id,
            Flow::Then(tgt) => tgt,
            Flow::Branch(bl1, bl2) => if cfg.has_depth(bl1, k) {
                bl1
            } else {
                bl2
            },
        };
        let w = lemma_depths_below(cfg, below, k);
        w.push(id.0 as int)
    }
}

/// The bound in [`Cfg::ends`] leaves nothing out: a flow that ends at all ends within as many
/// steps as the graph has blocks, and [`Cfg::region`] holds all that it leads to.
pub proof fn law_flow_ends(cfg: Cfg, id: BlockId, n: nat)
    requires
        cfg.ends_within(id, n),
    ensures
        cfg.ends(id),
        cfg.region(id) == cfg.region_within(id, n),
{
    let d = lemma_depth_exists(cfg, id, n);
    let w = lemma_depths_below(cfg, id, d);
    assert forall|i: int, j: int| 0 <= i < w.len() && 0 <= j < w.len() && i != j implies w[i]
        != w[j] by {
        if w[i] == w[j] {
            lemma_depth_unique(cfg, BlockId(w[i] as u32), i as nat, j as nat);
        }
    }
    let all = vstd::set_lib::set_int_range(0, cfg.blocks@.len() as int);
    vstd::set_lib::lemma_int_range(0, cfg.blocks@.len() as int);
    w.unique_seq_to_set();
    assert(w.to_set().subset_of(all));
    vstd::set_lib::lemma_len_subset(w.to_set(), all);
    lemma_ends_within_more(cfg, id, d, cfg.blocks@.len());
    lemma_ends_within_more(cfg, id, d, n);
}

/// A region begins with what the flow of its block leads to, and ends with the block.
pub proof fn lemma_region(cfg: Cfg, id: BlockId)
    ensures
        cfg.ends(id) <==> cfg.has(id) && match cfg.flow(id) {
            Flow::Stop => true,
            Flow::Then(tgt) => cfg.ends(tgt),
            Flow::Branch(bl1, bl2) => cfg.ends(bl1) && cfg.ends(bl2),
        },
        cfg.ends(id) ==> cfg.region(id) == match cfg.flow(id) {
            Flow::Stop => seq![id],
            Flow::Then(tgt) => cfg.region(tgt).push(id),
            Flow::Branch(bl1, bl2) => (cfg.region(bl2) + cfg.region(bl1)).push(id),
        },
{
    let n = cfg.blocks@.len();
    if cfg.has(id) {
        match cfg.flow(id) {
            Flow::Stop => {},
            Flow::Then(tgt) => {
                if cfg.ends(id) {
                    lemma_ends_within_more(cfg, tgt, (n - 1) as nat, n);
                } else if cfg.ends(tgt) {
                    law_flow_ends(cfg, id, n + 1);
                }
            },
            Flow::Branch(bl1, bl2) => {
                if cfg.ends(id) {
                    lemma_ends_within_more(cfg, bl1, (n - 1) as nat, n);
                    lemma_ends_within_more(cfg, bl2, (n - 1) as nat, n);
                } else if cfg.ends(bl1) && cfg.ends(bl2) {
                    law_flow_ends(cfg, id, n + 1);
                }
            },
        }
    }
}

} // verus!
