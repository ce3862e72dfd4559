use elf_proof::block_tree::{BlockProof, BlockProofTree, BlockTreeIter};
use elf_proof::code::{ConstData, LinkedCode, PCode, TEXT_START};
use elf_proof::ids::{BlockId, IdxVec, VBlockId};
use elf_proof::mir::{BasicBlock, BlockTree, Cfg, Operand, Terminator};
use elf_proof::procs::Proc;
use std::collections::HashMap;

type Context = im::HashMap<u32, bool>;

fn graph(terms: Vec<Terminator>, tree: BlockTree) -> Cfg {
    let blocks = terms.into_iter().map(|t| BasicBlock { term: Some(t) }).collect();
    Cfg { blocks: IdxVec::from_vec(blocks), tree }
}

fn empty_code() -> LinkedCode {
    LinkedCode {
        mir: HashMap::new(),
        init: (
            graph(vec![], BlockTree::Many(vec![])),
            PCode {
                insts: vec![],
                block_map: HashMap::new(),
                blocks: IdxVec::from_vec(vec![(0, 0)]),
                block_addr: IdxVec::from_vec(vec![0]),
                len: 4,
            },
        ),
        func_names: IdxVec::from_vec(vec![]),
        funcs: IdxVec::from_vec(vec![]),
        postorder: vec![],
        consts: ConstData { ordered: vec![], map: HashMap::new() },
        text_size: 0,
    }
}

fn proc_of<'a>(code: &'a LinkedCode, cfg: &'a Cfg) -> Proc<'a> {
    Proc { code, cfg, proc: &code.init.1, id: None, start: TEXT_START, content: &[9, 8, 7, 6] }
}

/// The context after the proof of a tree, if the proof goes through.
fn prove_from(cfg: &Cfg, mut ctx: Context) -> Option<Context> {
    let code = empty_code();
    let proc = proc_of(&code, cfg);
    if proc.proof_tree().validate(&mut ctx) {
        Some(ctx)
    } else {
        None
    }
}

fn prove(cfg: &Cfg) -> Option<Context> {
    prove_from(cfg, Context::new())
}

fn context(entries: &[(u32, bool)]) -> Context {
    entries.iter().cloned().collect()
}

fn jump(tgt: u32) -> Terminator {
    Terminator::Jump(BlockId(tgt), None)
}

fn back(tgt: u32) -> Terminator {
    Terminator::Jump(BlockId(tgt), Some(Operand(0)))
}

fn then(tgt: u32) -> Terminator {
    Terminator::Jump1(BlockId(tgt))
}

fn branch(bl1: u32, bl2: u32) -> Terminator {
    Terminator::If(BlockId(bl1), BlockId(bl2))
}

fn one(id: u32) -> BlockTree {
    BlockTree::One(BlockId(id))
}

fn group(labels: &[u32], trees: Vec<BlockTree>) -> BlockTree {
    let labels = labels.iter().map(|l| BlockId(*l)).collect();
    BlockTree::LabelGroup(Box::new((labels, trees)))
}

fn single(bl: Option<BlockProofTree<'_>>) -> BlockId {
    match bl {
        Some(BlockProofTree::One(bl)) => bl.id(),
        _ => panic!("not a single block"),
    }
}

fn drain(iter: &mut BlockTreeIter<'_>) -> Vec<u32> {
    let mut ids = vec![];
    while let Some(tree) = iter.next() {
        match tree {
            BlockProofTree::One(bl) => ids.push(bl.id().0),
            _ => panic!("not a single block"),
        }
    }
    ids
}

/// ```text
/// start: while A variant v1 { if B { C } else { D } E; while F variant v2 { continue } G; continue }
/// ```
/// The blocks are A to G from 0, the body of the inner loop (7), the way out of the outer loop
/// (8), what follows it (9), and the start (10).
fn nested_loops(inner: Terminator, outer: Terminator) -> Cfg {
    graph(
        vec![
            branch(1, 8),
            branch(2, 3),
            jump(4),
            jump(4),
            jump(5),
            branch(7, 6),
            outer,
            inner,
            jump(9),
            Terminator::Exit,
            jump(0),
        ],
        BlockTree::Many(vec![
            one(10),
            group(&[0], vec![one(0), one(4), group(&[5], vec![one(5)])]),
            one(9),
        ]),
    )
}

#[test]
fn nested_loops_with_variants_are_proved() {
    let ctx = prove(&nested_loops(back(5), back(0))).unwrap();
    assert_eq!(ctx, context(&[(9, false), (0, false), (10, false)]));
}

#[test]
fn loops_without_variants_are_not_proved() {
    assert!(prove(&nested_loops(jump(5), back(0))).is_none());
    assert!(prove(&nested_loops(back(5), jump(0))).is_none());
    assert!(prove(&nested_loops(back(4), back(0))).is_none());
}

#[test]
fn jumps_need_a_proved_block() {
    let cfg = graph(vec![jump(1), Terminator::Return], BlockTree::Many(vec![one(0), one(1)]));
    assert_eq!(prove(&cfg), Some(context(&[(0, false), (1, false)])));
    let cfg = graph(vec![jump(1), Terminator::Return], BlockTree::Many(vec![one(1), one(0)]));
    assert_eq!(prove(&cfg), None);
    let cfg = graph(vec![back(1), Terminator::Return], BlockTree::Many(vec![one(0), one(1)]));
    assert_eq!(prove(&cfg), None);
}

#[test]
fn blocks_are_proved_once() {
    let cfg = graph(vec![Terminator::Return], BlockTree::Many(vec![one(0), one(0)]));
    assert_eq!(prove(&cfg), None);
    let cfg = graph(vec![Terminator::Return], one(0));
    assert_eq!(prove_from(&cfg, context(&[(0, false)])), None);
    assert_eq!(prove_from(&cfg, context(&[(0, true)])), None);
    assert_eq!(prove_from(&cfg, context(&[(1, true)])), Some(context(&[(0, false), (1, true)])));
}

#[test]
fn labels_are_proved_in_reverse_order() {
    let terms = vec![back(1), back(0)];
    let cfg = graph(terms.clone(), group(&[0, 1], vec![one(0), one(1)]));
    assert_eq!(prove(&cfg), Some(context(&[(0, false), (1, false)])));
    let cfg = graph(terms.clone(), group(&[0, 1], vec![one(1), one(0)]));
    assert_eq!(prove(&cfg), None);
    // A label remains a hypothesis after it has been met.
    let cfg = graph(vec![jump(1), back(0)], group(&[0, 1], vec![one(0), one(1)]));
    assert_eq!(prove(&cfg), None);
    // Labels that are known already, that occur twice, or that are not met.
    let cfg = graph(terms.clone(), group(&[0, 1], vec![one(0), one(1)]));
    assert_eq!(prove_from(&cfg, context(&[(0, false)])), None);
    let cfg = graph(terms.clone(), group(&[0, 0], vec![one(0), one(0)]));
    assert_eq!(prove(&cfg), None);
    let cfg = graph(terms.clone(), group(&[0, 1], vec![one(1)]));
    assert_eq!(prove(&cfg), None);
    // Nothing may be left after the first label.
    let cfg = graph(vec![back(0), Terminator::Return], group(&[0], vec![one(1), one(0)]));
    assert_eq!(prove(&cfg), None);
}

#[test]
fn groups_without_labels_are_empty() {
    let cfg = graph(vec![Terminator::Return], group(&[], vec![]));
    assert_eq!(prove(&cfg), Some(context(&[])));
    let cfg = graph(vec![Terminator::Return], group(&[], vec![one(0)]));
    assert_eq!(prove(&cfg), None);
}

#[test]
fn what_an_induction_proves_on_the_way_is_not_available_after_it() {
    let terms = vec![jump(1), back(0), jump(1)];
    let cfg = graph(terms.clone(), group(&[0], vec![one(0), one(1)]));
    assert_eq!(prove(&cfg), Some(context(&[(0, false)])));
    let cfg = graph(
        terms,
        BlockTree::Many(vec![one(2), group(&[0], vec![one(0), one(1)])]),
    );
    assert_eq!(prove(&cfg), None);
}

#[test]
fn flow_that_does_not_end_is_not_proved() {
    let cfg = graph(vec![then(1), then(0)], one(0));
    assert_eq!(prove(&cfg), None);
    let cfg = graph(vec![then(0)], one(0));
    assert_eq!(prove(&cfg), None);
    let cfg = graph(vec![branch(1, 0), Terminator::Return], one(0));
    assert_eq!(prove(&cfg), None);
    // A block that is not there, and one that is not finished.
    let cfg = graph(vec![then(1)], one(0));
    assert_eq!(prove(&cfg), None);
    let mut cfg = graph(vec![then(1), Terminator::Return], one(0));
    assert!(prove(&cfg).is_some());
    cfg.blocks.0[1].term = None;
    assert_eq!(prove(&cfg), None);
    assert_eq!(prove(&graph(vec![Terminator::Return], one(1))), None);
}

#[test]
fn flow_through_all_blocks_ends() {
    let cfg = graph(vec![then(1), then(2), then(3), Terminator::Dead], one(0));
    assert_eq!(prove(&cfg), Some(context(&[(0, false)])));
}

#[test]
fn terminators() {
    let ends = [
        Terminator::Return,
        Terminator::Unreachable,
        Terminator::Exit,
        Terminator::Dead,
        Terminator::Assert(false, BlockId(7)),
        Terminator::Call { reach: false, tgt: BlockId(7) },
    ];
    for term in ends {
        assert!(prove(&graph(vec![term], one(0))).is_some());
    }
    let goes_on = [
        then(1),
        Terminator::Assert(true, BlockId(1)),
        Terminator::Call { reach: true, tgt: BlockId(1) },
        branch(1, 1),
    ];
    for term in goes_on {
        assert!(prove(&graph(vec![term, Terminator::Return], one(0))).is_some());
        assert!(prove(&graph(vec![term], one(0))).is_none());
        let cfg = graph(vec![term, jump(2)], one(0));
        assert!(prove_from(&cfg, context(&[(2, false)])).is_some());
        assert!(prove_from(&cfg, context(&[(2, true)])).is_none());
        assert!(prove_from(&cfg, context(&[])).is_none());
    }
}

#[test]
fn block_is_ok_by_its_context() {
    let code = empty_code();
    let cfg = graph(vec![branch(1, 2), jump(3), back(4)], one(0));
    let proc = proc_of(&code, &cfg);
    let bl: BlockProof<'_> = match proc.proof_tree() {
        BlockProofTree::One(bl) => bl,
        _ => panic!("not a single block"),
    };
    assert!(bl.validate(&context(&[(3, false), (4, true)])));
    assert!(!bl.validate(&context(&[(3, true), (4, true)])));
    assert!(!bl.validate(&context(&[(3, false), (4, false)])));
    assert!(!bl.validate(&context(&[(3, false)])));
    assert!(!bl.validate(&context(&[(4, true)])));
}

#[test]
fn one_lists_a_region_in_dependency_order() {
    let code = empty_code();
    // 0 -> 1 -> {2 -> 4, 3 -> {5, 6}}
    let cfg = graph(
        vec![
            then(1),
            branch(2, 3),
            Terminator::Call { reach: true, tgt: BlockId(4) },
            branch(5, 6),
            Terminator::Return,
            Terminator::Exit,
            Terminator::Dead,
        ],
        one(0),
    );
    let proc = proc_of(&code, &cfg);
    match BlockProofTree::one(&proc, BlockId(0)) {
        BlockProofTree::Sequence(mut iter) => {
            let mut copy = iter.clone();
            assert_eq!(drain(&mut iter), vec![6, 5, 3, 4, 2, 1, 0]);
            assert!(iter.next().is_none());
            assert_eq!(drain(&mut copy), vec![6, 5, 3, 4, 2, 1, 0]);
        }
        _ => panic!("not a sequence"),
    }
    match BlockProofTree::one(&proc, BlockId(4)) {
        BlockProofTree::One(bl) => assert_eq!(bl.id(), BlockId(4)),
        _ => panic!("not a single block"),
    }
}

#[test]
fn region_can_be_proved_block_by_block() {
    let code = empty_code();
    let cfg = graph(vec![then(1), branch(2, 3), jump(9), Terminator::Exit], one(0));
    let proc = proc_of(&code, &cfg);
    let mut ctx = context(&[(9, false)]);
    assert!(BlockProofTree::one(&proc, BlockId(0)).validate(&mut ctx));
    assert_eq!(ctx, context(&[(0, false), (1, false), (2, false), (3, false), (9, false)]));
    let mut ctx = context(&[(9, false), (2, false)]);
    assert!(!BlockProofTree::one(&proc, BlockId(0)).validate(&mut ctx));
    let mut ctx = context(&[]);
    assert!(!BlockProofTree::one(&proc, BlockId(0)).validate(&mut ctx));
}

#[test]
fn induction_shows_its_labels_and_body() {
    let code = empty_code();
    let cfg = graph(vec![back(1), back(0)], group(&[0, 1], vec![one(0), one(1)]));
    let proc = proc_of(&code, &cfg);
    match proc.proof_tree() {
        BlockProofTree::Induction(ind) => {
            assert_eq!(ind.labels(), &[BlockId(0), BlockId(1)]);
            let mut body = ind.body();
            assert_eq!(single(body.next()), BlockId(1));
            assert_eq!(single(body.next()), BlockId(0));
            assert!(body.next().is_none());
        }
        _ => panic!("not an induction"),
    }
}

#[test]
fn sequence_works_backward() {
    let code = empty_code();
    let cfg = graph(
        vec![Terminator::Return; 3],
        BlockTree::Many(vec![one(2), group(&[], vec![]), BlockTree::Many(vec![]), one(1)]),
    );
    let proc = proc_of(&code, &cfg);
    let tree = proc.proof_tree().clone();
    match tree {
        BlockProofTree::Sequence(mut iter) => {
            assert_eq!(single(iter.next()), BlockId(1));
            assert!(matches!(iter.next(), Some(BlockProofTree::Sequence(_))));
            assert!(matches!(iter.next(), Some(BlockProofTree::Induction(_))));
            assert_eq!(single(iter.next()), BlockId(2));
            assert!(iter.next().is_none());
        }
        _ => panic!("not a sequence"),
    }
}

#[test]
fn block_proof_leads_to_its_blocks() {
    let mut code = empty_code();
    code.init.1.block_map.insert(1, VBlockId(0));
    let cfg = graph(vec![Terminator::Return, Terminator::Exit], BlockTree::Many(vec![one(0), one(1)]));
    let proc = proc_of(&code, &cfg);
    match proc.proof_tree() {
        BlockProofTree::Sequence(mut iter) => {
            match iter.next() {
                Some(BlockProofTree::One(bl)) => {
                    assert_eq!(bl.block().term, Some(Terminator::Exit));
                    let vblock = bl.vblock().unwrap();
                    assert_eq!(vblock.start(), 0);
                    assert_eq!(vblock.content(), &[9, 8, 7, 6]);
                }
                _ => panic!("not a single block"),
            }
            match iter.next() {
                Some(BlockProofTree::One(bl)) => {
                    assert_eq!(bl.block().term, Some(Terminator::Return));
                    assert!(bl.vblock().is_none());
                }
                _ => panic!("not a single block"),
            }
        }
        _ => panic!("not a sequence"),
    }
}

/// The context that the proof of a tree leaves when it does not go through.
fn refuse(cfg: &Cfg, entries: &[(u32, bool)]) -> Context {
    let code = empty_code();
    let proc = proc_of(&code, cfg);
    let mut ctx = context(entries);
    assert!(!proc.proof_tree().validate(&mut ctx));
    ctx
}

#[test]
fn refused_blocks_and_groups_leave_the_context() {
    let cfg = graph(vec![Terminator::Return], one(0));
    for known in [false, true] {
        assert_eq!(refuse(&cfg, &[(0, known)]), context(&[(0, known)]));
    }
    let cfg = graph(vec![jump(1)], one(0));
    assert_eq!(refuse(&cfg, &[(1, true)]), context(&[(1, true)]));
    // A label that is known, one that occurs twice, and a body that does not go through.
    let cfg = graph(vec![back(0), back(0)], group(&[0, 1], vec![one(0), one(1)]));
    assert_eq!(refuse(&cfg, &[(1, true)]), context(&[(1, true)]));
    let cfg = graph(vec![back(0)], group(&[0, 0], vec![one(0), one(0)]));
    assert_eq!(refuse(&cfg, &[(7, false)]), context(&[(7, false)]));
    let cfg = graph(vec![jump(0), back(0)], group(&[0], vec![one(0), one(1)]));
    assert_eq!(refuse(&cfg, &[(7, true)]), context(&[(7, true)]));
}

#[test]
fn refused_sequences_leave_what_was_proved_before() {
    let cfg = graph(
        vec![jump(9), Terminator::Return, back(2), Terminator::Exit],
        BlockTree::Many(vec![
            one(3),
            BlockTree::Many(vec![one(0), group(&[2], vec![one(2)])]),
            one(1),
        ]),
    );
    assert_eq!(refuse(&cfg, &[(9, true)]), context(&[(1, false), (2, false), (9, true)]));
}

#[test]
fn first_branch_is_developed_after_the_second() {
    let code = empty_code();
    // 0 -> {1 -> 3, 2}
    let cfg = graph(
        vec![branch(1, 2), then(3), Terminator::Assert(false, BlockId(3)), Terminator::Return],
        one(0),
    );
    let proc = proc_of(&code, &cfg);
    match BlockProofTree::one(&proc, BlockId(0)) {
        BlockProofTree::Sequence(mut iter) => {
            assert_eq!(single(iter.next()), BlockId(2));
            assert_eq!(drain(&mut iter.clone()), vec![3, 1, 0]);
            assert_eq!(single(iter.next()), BlockId(3));
            assert_eq!(drain(&mut iter), vec![1, 0]);
        }
        _ => panic!("not a sequence"),
    }
}
