use elf_proof::assembly::{AssemblyItem, AssemblyItemIter};
use elf_proof::code::{ConstData, ConstRef, LinkedCode, PCode, FUNCTION_ALIGN, TEXT_START};
use elf_proof::elf::{ElfProof, ValidateError};
use elf_proof::ids::{BlockId, IdxVec, ProcId, Symbol};
use elf_proof::mir::{BasicBlock, BlockTree, Cfg, Terminator};
use std::collections::HashMap;

fn pcode(len: u32) -> PCode {
    PCode {
        insts: vec![],
        block_map: HashMap::new(),
        blocks: IdxVec::from_vec(vec![]),
        block_addr: IdxVec::from_vec(vec![]),
        len,
    }
}

fn cfg(term: Terminator) -> Cfg {
    Cfg {
        blocks: IdxVec::from_vec(vec![BasicBlock { term: Some(term) }]),
        tree: BlockTree::One(BlockId(0)),
    }
}

/// Init (5 bytes), two functions (20 and 16 bytes), and two constants (3 and 9 bytes).
fn program() -> LinkedCode {
    let mut mir = HashMap::new();
    mir.insert(100, cfg(Terminator::Return));
    mir.insert(101, cfg(Terminator::Exit));
    let mut map = HashMap::new();
    map.insert(200, (3, ConstRef::Ptr(0)));
    map.insert(201, (9, ConstRef::Ptr(3)));
    map.insert(202, (8, ConstRef::Value(7)));
    LinkedCode {
        mir,
        init: (cfg(Terminator::Dead), pcode(5)),
        func_names: IdxVec::from_vec(vec![Symbol(100), Symbol(101)]),
        funcs: IdxVec::from_vec(vec![(0x40_0080, pcode(20)), (0x40_00a0, pcode(16))]),
        postorder: vec![ProcId(1), ProcId(0)],
        consts: ConstData { ordered: vec![Symbol(200), Symbol(201)], map },
        text_size: 0x38,
    }
}

/// A file whose segment holds the numbers from 0, with the given sizes in its program header.
fn file_with(size: usize, filesz: u64, memsz: u64) -> Vec<u8> {
    let mut file: Vec<u8> = (0..0x78u32).map(|i| 255 - i as u8).collect();
    file[0x60..0x68].copy_from_slice(&filesz.to_le_bytes());
    file[0x68..0x70].copy_from_slice(&memsz.to_le_bytes());
    file.extend((0..size).map(|i| i as u8));
    file
}

fn file(size: usize) -> Vec<u8> {
    file_with(size, size as u64, size as u64 + 32)
}

fn list<'a>(mut iter: AssemblyItemIter<'a>) -> Vec<AssemblyItem<'a>> {
    let mut items = vec![];
    while iter.ready() {
        match iter.next() {
            Some(item) => items.push(item),
            None => return items,
        }
    }
    panic!("an item does not fit");
}

fn check(code: &LinkedCode, file: Vec<u8>) -> Result<(), ValidateError> {
    code.elf_proof(file).validate()
}

#[test]
fn constants() {
    assert_eq!(TEXT_START, 0x40_0078);
    assert_eq!(FUNCTION_ALIGN, 16);
    assert!(elf_proof::code::VERIFY_TERMINATION);
}

#[test]
fn file_parts() {
    let code = program();
    let bytes = file(68);
    let elf = code.elf_proof(bytes.clone());
    assert_eq!(elf.header(), &bytes[..0x40]);
    assert_eq!(elf.p_header(), &bytes[0x40..0x78]);
    assert_eq!(elf.content(), &bytes[0x78..]);
    let joined = [elf.header(), elf.p_header(), elf.content()].concat();
    assert_eq!(joined, bytes);
    let whole: &[u8] = &elf;
    assert_eq!(whole, &bytes[..]);
    assert_eq!(elf.len(), 0x78 + 68);
}

#[test]
fn header_fields() {
    let code = program();
    let elf = code.elf_proof(file_with(68, 0x0102_0304_0506_0708, 0x1112_1314_1516_1718));
    assert_eq!(elf.p_filesz(), 0x0102_0304_0506_0708);
    assert_eq!(elf.p_memsz(), 0x1112_1314_1516_1718);
    assert_eq!(elf.bss(), 0x1010_1010_1010_1010);
    assert_eq!(elf.entry(), 0x40_0078);
    assert_eq!(elf.func_names().0, vec![Symbol(100), Symbol(101)]);
    assert_eq!(elf.func_names().get(ProcId(1)), Some(&Symbol(101)));
    assert_eq!(elf.func_names().get(ProcId(2)), None);
}

#[test]
fn assembly_lists_all_items_in_file_order() {
    let code = program();
    let elf = code.elf_proof(file(68));
    let items = list(elf.assembly());
    let starts: Vec<u32> = items.iter().map(|item| item.start()).collect();
    assert_eq!(starts, vec![0x40_0078, 0x40_0080, 0x40_00a0, 0x40_00b0, 0x40_00b3]);
    let sizes: Vec<usize> = items.iter().map(|item| item.content().len()).collect();
    assert_eq!(sizes, vec![8, 32, 16, 3, 9]);
    let joined: Vec<u8> = items.iter().flat_map(|item| item.content().to_vec()).collect();
    assert_eq!(joined, elf.content());
    let ids: Vec<Option<ProcId>> = items
        .iter()
        .filter_map(|item| match item {
            AssemblyItem::Proc(proc) => Some(proc.id),
            AssemblyItem::Const(_) => None,
        })
        .collect();
    assert_eq!(ids, vec![None, Some(ProcId(0)), Some(ProcId(1))]);
    match &items[4] {
        AssemblyItem::Const(data) => {
            assert_eq!(data.name, Symbol(201));
            assert_eq!(data.content, &[59, 60, 61, 62, 63, 64, 65, 66, 67]);
        }
        AssemblyItem::Proc(_) => panic!("not a constant"),
    }
}

#[test]
fn assembly_counts_and_positions() {
    let code = program();
    let elf = code.elf_proof(file(68));
    let mut iter = elf.assembly();
    let mut seen = vec![];
    loop {
        seen.push((iter.len(), iter.size_hint(), iter.pos()));
        if iter.next().is_none() {
            break;
        }
    }
    assert_eq!(
        seen,
        vec![
            (5, (5, Some(5)), 0x40_0078),
            (4, (4, Some(4)), 0x40_0080),
            (3, (3, Some(3)), 0x40_00a0),
            (2, (2, Some(2)), 0x40_00b0),
            (1, (1, Some(1)), 0x40_00b3),
            (0, (0, Some(0)), 0x40_00bc),
        ]
    );
    assert!(iter.ready());
    assert!(iter.next().is_none());
}

#[test]
fn assembly_is_not_ready_for_items_that_do_not_fit() {
    let mut code = program();
    assert!(!code.elf_proof(file(7)).assembly().ready());
    assert!(code.elf_proof(file(8)).assembly().ready());
    code.init.1.len = u32::MAX - 0x40_0078 - 15;
    assert!(!code.elf_proof(file(8)).assembly().ready());
    code.init.1.len = u32::MAX;
    assert!(!code.elf_proof(file(8)).assembly().ready());
}

#[test]
fn procedures_in_proof_order_with_init_last() {
    let code = program();
    let elf = code.elf_proof(file(68));
    let mut iter = elf.proc_proofs();
    let mut seen = vec![];
    loop {
        assert!(iter.ready());
        assert_eq!(iter.size_hint(), (iter.len(), Some(iter.len())));
        let n = iter.len();
        match iter.next() {
            Some(proc) => seen.push((n, proc.id, proc.start, proc.name())),
            None => {
                assert_eq!(n, 0);
                break;
            }
        }
    }
    assert_eq!(
        seen,
        vec![
            (3, Some(ProcId(1)), 0x40_00a0, Some(Symbol(101))),
            (2, Some(ProcId(0)), 0x40_0080, Some(Symbol(100))),
            (1, None, 0x40_0078, None),
        ]
    );
    assert!(iter.next().is_none());
}

#[test]
fn procedure_content_has_its_padding() {
    let code = program();
    let elf = code.elf_proof(file(68));
    let f = elf.proof_item(Some(ProcId(0)));
    assert_eq!(f.len_no_padding(), 20);
    assert_eq!(f.content.len(), 32);
    assert_eq!(f.content[0], 8);
    assert_eq!(f.trailing_padding(), &[28, 29, 30, 31, 32, 33, 34, 35, 36, 37, 38, 39]);
    let g = elf.proof_item(Some(ProcId(1)));
    assert!(g.trailing_padding().is_empty());
    let init = elf.proof_item(None);
    assert_eq!(init.trailing_padding(), &[5, 6, 7]);
}

#[test]
fn items_agree_with_proofs() {
    let code = program();
    let elf = code.elf_proof(file(68));
    for item in list(elf.assembly()) {
        if let AssemblyItem::Proc(proc) = item {
            let other = elf.proof_item(proc.id);
            assert_eq!(proc.start, other.start);
            assert_eq!(proc.content, other.content);
            assert_eq!(proc.name(), other.name());
        }
    }
}

#[test]
fn functions_start_aligned_and_padding_is_short() {
    let code = program();
    let elf = code.elf_proof(file(68));
    for item in list(elf.assembly()) {
        if let AssemblyItem::Proc(proc) = item {
            assert!(proc.trailing_padding().len() < 16);
            assert!(proc.id.is_none() || proc.start % 16 == 0);
        }
    }
}

#[test]
fn procedures_that_do_not_fit_are_not_ready() {
    let mut code = program();
    assert!(code.proc_ready(None, 8));
    assert!(!code.proc_ready(None, 7));
    assert!(code.proc_ready(Some(ProcId(1)), 0x38));
    assert!(!code.proc_ready(Some(ProcId(1)), 0x37));
    assert!(!code.proc_ready(Some(ProcId(2)), 1000));
    code.funcs.0[1].0 = 0x40_0077;
    assert!(!code.proc_ready(Some(ProcId(1)), 1000));
    code.funcs.0[1].0 = u32::MAX;
    assert!(!code.proc_ready(Some(ProcId(1)), 1000));
    code.mir.remove(&100);
    assert!(!code.proc_ready(Some(ProcId(0)), 1000));
}

#[test]
fn valid_file() {
    let code = program();
    let elf: ElfProof<'_> = code.elf_proof(file(68));
    assert_eq!(elf.validate(), Ok(()));
    assert_eq!(elf.bss(), 32);
}

#[test]
fn header_errors() {
    let code = program();
    assert_eq!(check(&code, file_with(68, 68, 67)), Err(ValidateError::Header));
    assert_eq!(check(&code, file_with(68, 67, 68)), Err(ValidateError::Header));
    assert_eq!(check(&code, file_with(68, 69, 70)), Err(ValidateError::Header));
    assert_eq!(check(&code, file_with(0, 0, 0)), Err(ValidateError::Header));
    assert_eq!(check(&code, file_with(68, 68, 68)), Ok(()));
}

#[test]
fn assembly_errors() {
    let code = program();
    assert_eq!(check(&code, file(67)), Err(ValidateError::Assembly));
    assert_eq!(check(&code, file(69)), Err(ValidateError::Assembly));
    assert_eq!(check(&code, file(7)), Err(ValidateError::Assembly));
    // The end of the items is an address, not an offset into the segment.
    assert_eq!(check(&code, file(0x40_0078 + 68)), Err(ValidateError::Assembly));
    // A gap before the second constant, and constants that overlap.
    let mut code = program();
    code.consts.map.insert(201, (9, ConstRef::Ptr(4)));
    assert_eq!(check(&code, file(69)), Err(ValidateError::Assembly));
    code.consts.map.insert(201, (9, ConstRef::Ptr(2)));
    assert_eq!(check(&code, file(67)), Err(ValidateError::Assembly));
    // An empty constant.
    code.consts.map.insert(201, (0, ConstRef::Ptr(3)));
    assert_eq!(check(&code, file(59)), Err(ValidateError::Assembly));
    // Constants without a place in the read-only section.
    code.consts.map.insert(201, (9, ConstRef::Value(3)));
    assert_eq!(check(&code, file(68)), Err(ValidateError::Assembly));
    code.consts.map.remove(&201);
    assert_eq!(check(&code, file(68)), Err(ValidateError::Assembly));
    // An empty function, and one without a name or a graph.
    let mut code = program();
    code.funcs.0[1].1.len = 0;
    assert_eq!(check(&code, file(52)), Err(ValidateError::Assembly));
    let mut code = program();
    code.func_names.0.pop();
    assert_eq!(check(&code, file(68)), Err(ValidateError::Assembly));
    let mut code = program();
    code.mir.remove(&101);
    assert_eq!(check(&code, file(68)), Err(ValidateError::Assembly));
    // A text section that does not end where the read-only section starts.
    let mut code = program();
    code.text_size = 0x39;
    assert_eq!(check(&code, file(69)), Err(ValidateError::Assembly));
    code.text_size = u32::MAX;
    assert_eq!(check(&code, file(69)), Err(ValidateError::Assembly));
}

#[test]
fn proof_errors() {
    let mut code = program();
    code.mir.insert(100, cfg(Terminator::Jump(BlockId(0), None)));
    assert_eq!(check(&code, file(68)), Err(ValidateError::Proof));
    let mut code = program();
    code.init.0 = cfg(Terminator::Jump1(BlockId(0)));
    assert_eq!(check(&code, file(68)), Err(ValidateError::Proof));
    let mut code = program();
    code.postorder.push(ProcId(2));
    assert_eq!(check(&code, file(68)), Err(ValidateError::Proof));
    let mut code = program();
    code.funcs.0[0].0 = 0x40_0077;
    assert_eq!(check(&code, file(68)), Err(ValidateError::Proof));
    // A function that is in no proof order is not looked at.
    code.postorder = vec![ProcId(1)];
    assert_eq!(check(&code, file(68)), Ok(()));
}

#[test]
fn program_without_functions_and_constants() {
    let mut code = program();
    code.funcs = IdxVec::from_vec(vec![]);
    code.func_names = IdxVec::from_vec(vec![]);
    code.postorder = vec![];
    code.consts.ordered = vec![];
    assert_eq!(check(&code, file(8)), Ok(()));
    let elf = code.elf_proof(file(8));
    assert_eq!(elf.assembly().len(), 1);
    assert_eq!(elf.proc_proofs().len(), 1);
}

/// Lists the items, with the position before each of them and at the end.
fn positions(code: &LinkedCode, size: usize) -> (Vec<u32>, Vec<u32>) {
    let elf = code.elf_proof(file(size));
    let mut iter = elf.assembly();
    let mut before = vec![iter.pos()];
    let mut starts = vec![];
    while let Some(item) = iter.next() {
        starts.push(item.start());
        before.push(iter.pos());
    }
    (before, starts)
}

#[test]
fn position_is_where_the_next_item_starts() {
    let mut code = program();
    let (before, starts) = positions(&code, 68);
    assert_eq!(before[..5], starts);
    assert_eq!(before[5], 0x40_00bc);
    // Constants behind a gap, and in another order than their addresses.
    code.consts.map.insert(200, (3, ConstRef::Ptr(14)));
    code.consts.map.insert(201, (9, ConstRef::Ptr(4)));
    let (before, starts) = positions(&code, 73);
    assert_eq!(starts, vec![0x40_0078, 0x40_0080, 0x40_00a0, 0x40_00be, 0x40_00b4]);
    assert_eq!(before[..5], starts);
    assert_eq!(before[5], 0x40_00bd);
}

#[test]
fn position_before_a_constant_without_an_address() {
    let mut code = program();
    code.consts.map.insert(200, (3, ConstRef::Value(1)));
    let elf = code.elf_proof(file(68));
    let mut iter = elf.assembly();
    for _ in 0..3 {
        assert!(iter.next().is_some());
    }
    assert!(!iter.ready());
    assert_eq!(iter.pos(), 0x40_00b0);
    code.consts.map.insert(200, (3, ConstRef::Ptr(u32::MAX)));
    let elf = code.elf_proof(file(68));
    let mut iter = elf.assembly();
    for _ in 0..3 {
        assert!(iter.next().is_some());
    }
    assert!(!iter.ready());
    assert_eq!(iter.pos(), 0x40_00b0);
}
