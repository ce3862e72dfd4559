use elf_proof::code::{ConstData, InstLayout, LinkedCode, PCode, VInst, TEXT_START};
use elf_proof::ids::{Idx, IdxVec, ProcId, VBlockId};
use elf_proof::mir::{BlockTree, Cfg};
use elf_proof::procs::Proc;
use std::collections::HashMap;

fn inst(bytes: u8) -> VInst {
    VInst { layout: InstLayout { bytes } }
}

/// Three blocks: two instructions in 5 bytes, none in none, and three in 9 bytes.
fn code() -> LinkedCode {
    LinkedCode {
        mir: HashMap::new(),
        init: (
            Cfg { blocks: IdxVec::from_vec(vec![]), tree: BlockTree::Many(vec![]) },
            PCode {
                insts: vec![inst(1), inst(4), inst(2), inst(3), inst(4)],
                block_map: HashMap::new(),
                blocks: IdxVec::from_vec(vec![(0, 2), (2, 2), (2, 5)]),
                block_addr: IdxVec::from_vec(vec![0, 5, 5]),
                len: 14,
            },
        ),
        func_names: IdxVec::from_vec(vec![]),
        funcs: IdxVec::from_vec(vec![]),
        postorder: vec![],
        consts: ConstData { ordered: vec![], map: HashMap::new() },
        text_size: 0,
    }
}

const CONTENT: [u8; 16] = [0, 1, 2, 3, 4, 5, 6, 7, 8, 9, 10, 11, 12, 13, 14, 15];

fn proc_of(code: &LinkedCode) -> Proc<'_> {
    Proc {
        code,
        cfg: &code.init.0,
        proc: &code.init.1,
        id: None,
        start: TEXT_START,
        content: &CONTENT,
    }
}

#[test]
fn identifiers() {
    assert_eq!(ProcId(7).into_usize(), 7);
    assert_eq!(VBlockId(8).into_usize(), 8);
    let v: IdxVec<ProcId, u8> = IdxVec::from_vec(vec![3, 4]);
    assert_eq!(v.len(), 2);
    assert_eq!(v.get(ProcId(1)), Some(&4));
    assert_eq!(v.get(ProcId(2)), None);
}

#[test]
fn blocks_make_up_the_code() {
    let code = code();
    let proc = proc_of(&code);
    let mut iter = proc.assembly_blocks();
    let mut seen = vec![];
    let mut joined: Vec<u8> = vec![];
    loop {
        assert!(iter.ready());
        let n = iter.len();
        assert_eq!(iter.size_hint(), (n, Some(n)));
        match iter.next() {
            Some(block) => {
                seen.push((n, block.start(), block.content().len(), block.insts().len()));
                joined.extend(block.content());
            }
            None => break,
        }
    }
    assert_eq!(seen, vec![(3, 0, 5, 2), (2, 5, 0, 0), (1, 5, 9, 3)]);
    assert_eq!(joined, &CONTENT[..14]);
    assert_eq!(iter.len(), 0);
    assert!(iter.next().is_none());
}

#[test]
fn block_by_id() {
    let code = code();
    let proc = proc_of(&code);
    let block = proc.vblock(VBlockId(2));
    assert_eq!(block.start(), 5);
    assert_eq!(block.content(), &[5, 6, 7, 8, 9, 10, 11, 12, 13]);
    let block = proc.vblock(VBlockId(0));
    assert_eq!(block.start(), 0);
    assert_eq!(block.content(), &[0, 1, 2, 3, 4]);
}

#[test]
fn instructions_make_up_a_block() {
    let code = code();
    let proc = proc_of(&code);
    let block = proc.vblock(VBlockId(2));
    let mut iter = block.insts();
    let mut seen = vec![];
    let mut joined: Vec<u8> = vec![];
    loop {
        assert!(iter.ready());
        assert_eq!(iter.size_hint(), (iter.len(), Some(iter.len())));
        match iter.next() {
            Some(inst) => {
                assert_eq!(inst.inst.layout_inst(), inst.layout);
                seen.push((inst.start, inst.layout.len()));
                joined.extend(inst.content());
            }
            None => break,
        }
    }
    assert_eq!(seen, vec![(5, 2), (7, 3), (10, 4)]);
    assert_eq!(joined, block.content());
    assert!(iter.next().is_none());
}

#[test]
fn blocks_that_do_not_fit_are_not_ready() {
    let mut code = code();
    assert!(proc_of(&code).block_ready(2));
    assert!(!proc_of(&code).block_ready(3));
    code.init.1.len = 17;
    assert!(!proc_of(&code).block_ready(2));
    code.init.1.len = 4;
    assert!(!proc_of(&code).block_ready(2));
    code.init.1.len = 14;
    code.init.1.blocks.0[2] = (2, 6);
    assert!(!proc_of(&code).block_ready(2));
    code.init.1.blocks.0[2] = (3, 2);
    assert!(!proc_of(&code).block_ready(2));
    assert!(proc_of(&code).block_ready(1));
    code.init.1.block_addr.0[0] = 6;
    let proc = proc_of(&code);
    assert!(!proc.assembly_blocks().ready());
}

#[test]
fn instruction_addresses_follow_the_layout() {
    let mut code = code();
    code.init.1.block_addr = IdxVec::from_vec(vec![0, 0, 0]);
    code.init.1.len = 0;
    let proc = proc_of(&code);
    assert!(proc.vblock(VBlockId(2)).insts().ready());
    let mut iter = proc.vblock(VBlockId(0)).insts();
    assert_eq!(iter.next().unwrap().start, 0);
    assert_eq!(iter.next().unwrap().start, 1);
    assert!(iter.next().is_none());
}
