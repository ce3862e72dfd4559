//! Where the parts of a program lie: what the contracts of the listing functions come down to,
//! in terms of the linked code and the bytes alone.
use crate::assembly::{AssemblyItem, AssemblyItemIter};
use crate::blocks::{inst_addr, joined_insts, law_insts_join, InstIter, VBlock};
use crate::code::{align_up, ConstRef, LinkedCode, PCode, VInst, TEXT_START};
use crate::ids::{BlockId, Idx, ProcId, VBlockId};
use crate::procs::{Proc, ProcIter};
use vstd::prelude::*;

verus! {

/// An identifier stands for the position that its number gives.
pub proof fn law_identifiers(n: u32)
    ensures
        ProcId(n).pos() == n,
        BlockId(n).pos() == n,
        VBlockId(n).pos() == n,
{
}

/// An address is padded to the only multiple of 16 among itself and the 15 addresses after it.
pub proof fn law_padded_address(addr: int, end: int)
    requires
        addr <= end < addr + 16,
        end % 16 == 0,
    ensures
        align_up(addr) == end,
{
}

/// The init function is always there, with the graph and the code that the program holds for
/// it, at the start of the segment.
pub proof fn law_init_parts(code: LinkedCode)
    ensures
        code.has_proc(None),
        code.cfg(None) == code.init.0,
        code.pcode(None) == code.init.1,
        code.proc_start(None) == TEXT_START,
{
}

/// A function is there if it has code, a name, and a graph under its name. Its graph is the one
/// that is held under its own name, and its code and its address are its own.
pub proof fn law_function_parts(code: LinkedCode, f: ProcId)
    ensures
        code.has_proc(Some(f)) <==> {
            &&& f.0 < code.funcs@.len()
            &&& f.0 < code.func_names@.len()
            &&& code.mir@.contains_key(code.func_names@[f.0 as int].0)
        },
        code.cfg(Some(f)) == code.mir@[code.func_names@[f.0 as int].0],
        code.pcode(Some(f)) == code.funcs@[f.0 as int].1,
        code.proc_start(Some(f)) == code.funcs@[f.0 as int].0,
{
}

/// The init function lies in a segment exactly if its code, padded up to `end`, does.
pub proof fn law_init_fits(code: LinkedCode, size: nat, end: int)
    requires
        TEXT_START + code.init.1.len <= end < TEXT_START + code.init.1.len + 16,
        end % 16 == 0,
    ensures
        code.proc_fits(None, size) <==> {
            &&& TEXT_START + code.init.1.len + 16 <= u32::MAX
            &&& end - TEXT_START <= size
        },
{
    law_padded_address(TEXT_START + code.init.1.len, end);
}

/// A function lies in a segment exactly if it is there, starts in the segment, and its code,
/// padded up to `end`, ends in the segment.
pub proof fn law_function_fits(code: LinkedCode, f: ProcId, size: nat, end: int)
    requires
        f.0 < code.funcs@.len() ==> {
            let (start, pcode) = code.funcs@[f.0 as int];
            start + pcode.len <= end < start + pcode.len + 16
        },
        end % 16 == 0,
    ensures
        code.proc_fits(Some(f), size) <==> {
            let (start, pcode) = code.funcs@[f.0 as int];
            &&& f.0 < code.funcs@.len()
            &&& f.0 < code.func_names@.len()
            &&& code.mir@.contains_key(code.func_names@[f.0 as int].0)
            &&& TEXT_START <= start
            &&& start + pcode.len + 16 <= u32::MAX
            &&& end - TEXT_START <= size
        },
{
    if f.0 < code.funcs@.len() {
        law_padded_address(code.funcs@[f.0 as int].0 + code.funcs@[f.0 as int].1.len, end);
    }
}

/// A procedure that is shown belongs to the program, has the number, graph and code of the
/// procedure that was asked for, and its bytes are those of the segment from its address on, up
/// to the first multiple of 16 behind its code.
pub proof fn law_proc_shown<'a>(
    proc: Proc<'a>,
    code: LinkedCode,
    segment: Seq<u8>,
    id: Option<ProcId>,
    start: int,
)
    requires
        proc.shows(code, segment, id, start),
        TEXT_START <= start,
        forall|end: int|
            start + proc.proc.len <= end < start + proc.proc.len + 16 && #[trigger] (end % 16) == 0
                ==> end - TEXT_START <= segment.len(),
    ensures
        *proc.code == code,
        proc.id == id,
        proc.start == start,
        id is None ==> *proc.cfg == code.init.0 && *proc.proc == code.init.1,
        id matches Some(f) ==> {
            &&& *proc.cfg == code.mir@[code.func_names@[f.0 as int].0]
            &&& *proc.proc == code.funcs@[f.0 as int].1
        },
        proc.proc.len <= proc.content@.len() < proc.proc.len + 16,
        (start + proc.content@.len()) % 16 == 0,
        forall|i: int|
            0 <= i < proc.content@.len() ==> #[trigger] proc.content@[i] == segment[start
                - TEXT_START + i],
{
    let end = align_up(start + proc.proc.len);
    assert(end % 16 == 0);
}

/// The procedures of a proof order come in that order, each as it stands there, and the init
/// function comes last.
pub proof fn law_proc_order(iter: ProcIter<'_>, order: Seq<ProcId>)
    requires
        iter.rest() == Some(order),
    ensures
        iter.procs().len() == order.len() + 1,
        forall|i: int| 0 <= i < order.len() ==> #[trigger] iter.procs()[i] == Some(order[i]),
        iter.procs()[order.len() as int] is None,
{
}

/// When the init function has been listed, no procedure comes any more.
pub proof fn law_proc_order_end(iter: ProcIter<'_>)
    requires
        iter.rest() is None,
    ensures
        iter.procs().len() == 0,
{
}

/// There is an item for the init function, for each function and for each constant, in this
/// order, and each function and constant is listed under its own number and name.
pub proof fn law_items(code: LinkedCode)
    ensures
        code.item_count() == 1 + code.funcs@.len() + code.consts.ordered@.len(),
        code.is_text(0) && LinkedCode::text_id(0) is None,
        forall|f: u32|
            f < code.funcs@.len() ==> code.is_text(1 + f) && #[trigger] LinkedCode::text_id(1 + f)
                == Some(ProcId(f)),
        forall|j: int|
            0 <= j < code.consts.ordered@.len() ==> {
                &&& !code.is_text(1 + code.funcs@.len() + j)
                &&& code.const_name(1 + code.funcs@.len() + j) == #[trigger] code.consts.ordered@[j]
            },
{
}

/// The init function is assembled at the start of the segment, and its padding ends at the first
/// multiple of 16 behind its code.
pub proof fn law_init_address(code: LinkedCode)
    ensures
        code.item_start(0) == TEXT_START,
        code.item_start(0) + code.init.1.len <= code.item_end(0) < code.item_start(0)
            + code.init.1.len + 16,
        code.item_end(0) % 16 == 0,
        code.item_pos(0) == TEXT_START,
{
}

/// A function is assembled where the procedure before it ends, and its padding ends at the first
/// multiple of 16 behind its code.
pub proof fn law_function_address(code: LinkedCode, f: u32)
    requires
        f < code.funcs@.len(),
    ensures
        code.item_start(1 + f) == code.item_end(f as int),
        code.item_start(1 + f) + code.funcs@[f as int].1.len <= code.item_end(1 + f)
            < code.item_start(1 + f) + code.funcs@[f as int].1.len + 16,
        code.item_end(1 + f) % 16 == 0,
{
    let k = 1 + f;
    assert(LinkedCode::text_id(k) == Some(ProcId(f)));
    assert(code.item_start(k) == align_up(
        code.item_start(k - 1) + code.pcode(LinkedCode::text_id(k - 1)).len,
    ));
}

/// A constant starts at the offset that the program holds for it in the read-only section, which
/// follows the text section, and is as long as the program says.
pub proof fn law_const_address(code: LinkedCode, j: int, size: u32, addr: u32)
    requires
        0 <= j < code.consts.ordered@.len(),
        code.consts.map@.contains_key(code.consts.ordered@[j].0),
        code.consts.map@[code.consts.ordered@[j].0] == (size, ConstRef::Ptr(addr)),
    ensures
        code.item_start(1 + code.funcs@.len() + j) == TEXT_START + code.text_size + addr,
        code.item_end(1 + code.funcs@.len() + j) == TEXT_START + code.text_size + addr + size,
{
}

/// The position after some items is where the last of them ends.
pub proof fn law_pos_after(code: LinkedCode, k: int)
    requires
        0 <= k,
    ensures
        code.item_pos(k + 1) == code.item_end(k),
{
}

/// Before a procedure, the position is where it starts; before a constant that has no address,
/// and at the end, it is where the items before end.
pub proof fn law_pos(code: LinkedCode, k: int)
    requires
        0 <= k <= code.item_count(),
    ensures
        k <= code.funcs@.len() ==> code.next_pos(k) == code.item_start(k),
        k == code.item_count() ==> code.next_pos(k) == code.item_pos(k),
        code.funcs@.len() < k < code.item_count() ==> {
            let name = code.consts.ordered@[k - 1 - code.funcs@.len()];
            let start = TEXT_START + code.text_size + code.consts.map@[name.0].1->Ptr_0;
            code.next_pos(k) == if code.consts.map@.contains_key(name.0)
                && code.consts.map@[name.0].1 is Ptr && start <= u32::MAX {
                start
            } else {
                code.item_pos(k)
            }
        },
{
}

/// Item `k` can be listed exactly if it is there, its addresses can be represented, and its
/// bytes lie in the segment.
pub proof fn law_item_listed(code: LinkedCode, k: int, size: nat)
    requires
        0 <= k < code.item_count(),
    ensures
        k == 0 ==> (code.item_fits(k, size) <==> {
            &&& TEXT_START + code.init.1.len + 16 <= u32::MAX
            &&& code.item_end(0) - TEXT_START <= size
        }),
        0 < k <= code.funcs@.len() && k <= u32::MAX ==> (code.item_fits(k, size) <==> {
            &&& k <= code.func_names@.len()
            &&& code.mir@.contains_key(code.func_names@[k - 1].0)
            &&& TEXT_START <= code.item_start(k)
            &&& code.item_start(k) + code.funcs@[k - 1].1.len + 16 <= u32::MAX
            &&& code.item_end(k) - TEXT_START <= size
        }),
        0 < k <= code.funcs@.len() && k > u32::MAX ==> !code.item_fits(k, size),
        k > code.funcs@.len() ==> (code.item_fits(k, size) <==> {
            let name = code.consts.ordered@[k - 1 - code.funcs@.len()];
            let (len, at) = code.consts.map@[name.0];
            let end = code.text_size + at->Ptr_0 + len;
            &&& code.consts.map@.contains_key(name.0)
            &&& at is Ptr
            &&& TEXT_START + end <= u32::MAX
            &&& end <= size
        }),
{
}

/// An item that is shown is the one that stands in its place: the init function first, then the
/// functions by their numbers, then the constants by their names, each with the graph, code,
/// address and bytes that the program holds for it.
pub proof fn law_item_shown<'a>(item: AssemblyItem<'a>, code: LinkedCode, segment: Seq<u8>, k: int)
    requires
        0 <= k < code.item_count(),
        item.shows(code, segment, k),
        code.item_fits(k, segment.len()),
    ensures
        k <= code.funcs@.len() ==> {
            &&& item matches AssemblyItem::Proc(proc)
            &&& *proc.code == code
            &&& proc.start == code.item_start(k)
            &&& proc.proc.len <= proc.content@.len() < proc.proc.len + 16
            &&& proc.start + proc.content@.len() == code.item_end(k)
            &&& forall|i: int|
                0 <= i < proc.content@.len() ==> #[trigger] proc.content@[i] == segment[proc.start
                    - TEXT_START + i]
            &&& k == 0 ==> proc.id is None && *proc.cfg == code.init.0 && *proc.proc == code.init.1
            &&& k > 0 ==> {
                &&& proc.id == Some(ProcId((k - 1) as u32))
                &&& *proc.cfg == code.mir@[code.func_names@[k - 1].0]
                &&& *proc.proc == code.funcs@[k - 1].1
            }
        },
        k > code.funcs@.len() ==> {
            &&& item matches AssemblyItem::Const(data)
            &&& data.name == code.consts.ordered@[k - 1 - code.funcs@.len()]
            &&& code.consts.map@.contains_key(data.name.0)
            &&& code.consts.map@[data.name.0] == (
                data.content@.len() as u32,
                ConstRef::Ptr((data.start - TEXT_START - code.text_size) as u32),
            )
            &&& data.start >= TEXT_START + code.text_size
            &&& data.content@.len() <= u32::MAX
            &&& forall|i: int|
                0 <= i < data.content@.len() ==> #[trigger] data.content@[i] == segment[data.start
                    - TEXT_START + i]
        },
{
    if k > code.funcs@.len() {
        let name = code.const_name(k);
        assert(code.consts.map@[name.0].1 == ConstRef::Ptr(code.consts.map@[name.0].1->Ptr_0));
    }
}

/// Addresses that increase from item to item grow at least as fast as the numbers of the items.
proof fn lemma_addresses_grow(at: Seq<int>, k: int)
    requires
        0 <= k < at.len(),
        forall|i: int, j: int| 0 <= i < j < at.len() ==> at[i] < at[j],
    ensures
        at[0] + k <= at[k],
    decreases k,
{
    if k > 0 {
        lemma_addresses_grow(at, k - 1);
        assert(at[k - 1] < at[k]);
    }
}

/// A program can be assembled into a segment whenever there are addresses that increase from
/// the start of the segment to its end, such that each procedure, padded up to a multiple of
/// 16, and each constant lies between two of them, in the order of the items. The procedures
/// need names and graphs, and the constants need the offsets that lead to these addresses.
/// Nothing else is asked: a constant may have any size but 0.
pub proof fn law_assembly_complete(code: LinkedCode, size: nat, at: Seq<int>)
    requires
        at.len() == code.funcs@.len() + code.consts.ordered@.len() + 2,
        forall|i: int, j: int| 0 <= i < j < at.len() ==> at[i] < at[j],
        at[0] == TEXT_START,
        at[at.len() - 1] == TEXT_START + size,
        at[0] + code.init.1.len <= at[1] < at[0] + code.init.1.len + 16,
        at[1] % 16 == 0,
        at[0] + code.init.1.len + 16 <= u32::MAX,
        forall|i: int|
            0 <= i < code.funcs@.len() ==> {
                let len = (#[trigger] code.funcs@[i]).1.len;
                &&& at[i + 1] + len <= at[i + 2] < at[i + 1] + len + 16
                &&& at[i + 2] % 16 == 0
                &&& at[i + 1] + len + 16 <= u32::MAX
                &&& i < code.func_names@.len()
                &&& code.mir@.contains_key(code.func_names@[i].0)
            },
        forall|j: int|
            0 <= j < code.consts.ordered@.len() ==> {
                let name = #[trigger] code.consts.ordered@[j];
                let (len, place) = code.consts.map@[name.0];
                let k = code.funcs@.len() + 1 + j;
                &&& code.consts.map@.contains_key(name.0)
                &&& place is Ptr
                &&& at[k] == TEXT_START + code.text_size + place->Ptr_0
                &&& at[k + 1] == at[k] + len
                &&& at[k + 1] <= u32::MAX
            },
    ensures
        code.assembly_ok(size),
        forall|k: int| 0 <= k < at.len() - 1 ==> #[trigger] code.item_start(k) == at[k],
{
    let n = code.funcs@.len() as int;
    assert forall|k: int| 0 <= k < code.item_count() implies #[trigger] code.item_start(k) == at[k]
        && code.item_end(k) == at[k + 1] && code.item_ok(k, size) by {
        lemma_layout(code, size, at, k);
    }
    assert(code.item_end(code.item_count() - 1) == at[at.len() - 1]) by {
        assert(code.item_start(code.item_count() - 1) == at[at.len() - 2]);
    }
    assert forall|k: int| 0 <= k < code.item_count() implies #[trigger] code.item_ok(k, size) by {
        assert(code.item_start(k) == at[k]);
    }
}

/// Each item lies between the addresses that are given for it.
proof fn lemma_layout(code: LinkedCode, size: nat, at: Seq<int>, k: int)
    requires
        0 <= k < code.item_count(),
        at.len() == code.funcs@.len() + code.consts.ordered@.len() + 2,
        forall|i: int, j: int| 0 <= i < j < at.len() ==> at[i] < at[j],
        at[0] == TEXT_START,
        at[at.len() - 1] == TEXT_START + size,
        at[0] + code.init.1.len <= at[1] < at[0] + code.init.1.len + 16,
        at[1] % 16 == 0,
        at[0] + code.init.1.len + 16 <= u32::MAX,
        forall|i: int|
            0 <= i < code.funcs@.len() ==> {
                let len = (#[trigger] code.funcs@[i]).1.len;
                &&& at[i + 1] + len <= at[i + 2] < at[i + 1] + len + 16
                &&& at[i + 2] % 16 == 0
                &&& at[i + 1] + len + 16 <= u32::MAX
                &&& i < code.func_names@.len()
                &&& code.mir@.contains_key(code.func_names@[i].0)
            },
        forall|j: int|
            0 <= j < code.consts.ordered@.len() ==> {
                let name = #[trigger] code.consts.ordered@[j];
                let (len, place) = code.consts.map@[name.0];
                let k = code.funcs@.len() + 1 + j;
                &&& code.consts.map@.contains_key(name.0)
                &&& place is Ptr
                &&& at[k] == TEXT_START + code.text_size + place->Ptr_0
                &&& at[k + 1] == at[k] + len
                &&& at[k + 1] <= u32::MAX
            },
    ensures
        code.item_start(k) == at[k],
        code.item_end(k) == at[k + 1],
        code.item_ok(k, size),
    decreases k,
{
    lemma_addresses_grow(at, k);
    assert(at[k] < at[k + 1]);
    assert(at[k + 1] <= at[at.len() - 1]) by {
        if k + 1 < at.len() - 1 {
            assert(at[k + 1] < at[at.len() - 1]);
        }
    }
    if k > 0 {
        lemma_layout(code, size, at, k - 1);
    }
    if k == 0 {
        law_padded_address(at[0] + code.init.1.len, at[1]);
    } else if k <= code.funcs@.len() {
        let func = code.funcs@[k - 1];
        law_padded_address(at[k] + func.1.len, at[k + 1]);
        assert(LinkedCode::text_id(k) == Some(ProcId((k - 1) as u32)));
    } else {
        let name = code.consts.ordered@[k - 1 - code.funcs@.len()];
        assert(code.const_name(k) == name);
    }
}

/// In a program that can be assembled, the init function stands at the start of the segment, is
/// not empty, and the last item ends where the segment ends.
pub proof fn law_assembly_bounds(code: LinkedCode, size: nat)
    requires
        code.assembly_ok(size),
    ensures
        code.item_pos(0) == TEXT_START,
        code.item_pos((1 + code.funcs@.len() + code.consts.ordered@.len()) as int) == TEXT_START
            + size,
        TEXT_START + code.init.1.len <= code.item_pos(1) < TEXT_START + code.init.1.len + 16,
        code.item_pos(1) % 16 == 0,
        TEXT_START < code.item_pos(1),
{
    assert(code.item_ok(0, size));
    law_init_address(code);
    law_pos_after(code, 0);
    law_pos_after(code, code.item_count() - 1);
}

/// In a program that can be assembled, each function is there, starts where the items before it
/// end, is not empty, and ends at the first multiple of 16 behind its code.
pub proof fn law_assembly_function(code: LinkedCode, size: nat, i: int)
    requires
        code.assembly_ok(size),
        0 <= i < code.funcs@.len(),
    ensures
        i < code.func_names@.len(),
        code.mir@.contains_key(code.func_names@[i].0),
        code.item_pos(i + 1) < code.item_pos(i + 2),
        code.item_pos(i + 1) + code.funcs@[i].1.len <= code.item_pos(i + 2) < code.item_pos(i + 1)
            + code.funcs@[i].1.len + 16,
        code.item_pos(i + 2) % 16 == 0,
        code.item_pos(i + 1) + code.funcs@[i].1.len + 16 <= u32::MAX,
{
    assert(code.item_ok(i + 1, size));
    law_item_listed(code, i + 1, size);
    law_function_address(code, i as u32);
    law_pos_after(code, i);
    law_pos_after(code, i + 1);
}

/// In a program that can be assembled, each constant is there, starts where the items before it
/// end, which is where its offset leads, and is not empty.
pub proof fn law_assembly_constant(code: LinkedCode, size: nat, j: int)
    requires
        code.assembly_ok(size),
        0 <= j < code.consts.ordered@.len(),
    ensures
        code.consts.map@.contains_key(code.consts.ordered@[j].0),
        code.consts.map@[code.consts.ordered@[j].0].1 is Ptr,
        code.consts.map@[code.consts.ordered@[j].0].0 > 0,
        code.item_pos(code.funcs@.len() + 1 + j) == TEXT_START + code.text_size
            + code.consts.map@[code.consts.ordered@[j].0].1->Ptr_0,
        code.item_pos(code.funcs@.len() + 2 + j) == code.item_pos(code.funcs@.len() + 1 + j)
            + code.consts.map@[code.consts.ordered@[j].0].0,
        code.item_pos(code.funcs@.len() + 2 + j) <= u32::MAX,
{
    let k = code.funcs@.len() + 1 + j;
    let held = code.consts.map@[code.consts.ordered@[j].0];
    assert(code.item_ok(k, size));
    law_item_listed(code, k, size);
    assert(held.1 == ConstRef::Ptr(held.1->Ptr_0));
    law_const_address(code, j, held.0, held.1->Ptr_0);
    law_pos_after(code, k - 1);
    law_pos_after(code, k);
}

/// Where a block of a procedure ends: where the next one starts, or where the code ends.
pub proof fn law_block_ends(proc: PCode, i: int)
    requires
        0 <= i < proc.block_addr@.len(),
    ensures
        proc.block_start(i) == proc.block_addr@[i],
        i + 1 < proc.block_addr@.len() ==> proc.block_end(i) == proc.block_addr@[i + 1],
        i + 1 == proc.block_addr@.len() ==> proc.block_end(i) == proc.len,
{
}

/// A block is there exactly if it has an address and a range of instructions, its bytes lie in
/// the procedure, and its instructions lie among those of the procedure.
pub proof fn law_block_there<'a>(proc: Proc<'a>, i: int)
    requires
        0 <= i,
    ensures
        proc.has_block(i) <==> {
            let pcode = *proc.proc;
            let start = pcode.block_addr@[i];
            let end = if i + 1 < pcode.block_addr@.len() {
                pcode.block_addr@[i + 1]
            } else {
                pcode.len
            };
            &&& i < pcode.block_addr@.len()
            &&& i < pcode.blocks@.len()
            &&& start <= end
            &&& end <= proc.content@.len()
            &&& pcode.blocks@[i].0 <= pcode.blocks@[i].1
            &&& pcode.blocks@[i].1 <= pcode.insts@.len()
        },
{
}

/// A block that is shown has the bytes of the procedure from its own address up to the address
/// of the next block, and the instructions of its own range, all of them.
pub proof fn law_block_shown<'a>(block: VBlock<'a>, proc: Proc<'a>, i: int)
    requires
        block.shows(proc, i),
        proc.has_block(i),
    ensures
        block.proc() == proc,
        block.offset() == proc.proc.block_addr@[i],
        i + 1 < proc.proc.block_addr@.len() ==> block.offset() + block.bytes().len()
            == proc.proc.block_addr@[i + 1],
        i + 1 == proc.proc.block_addr@.len() ==> block.offset() + block.bytes().len()
            == proc.proc.len,
        forall|j: int|
            0 <= j < block.bytes().len() ==> #[trigger] block.bytes()[j]
                == proc.content@[block.offset() + j],
        block.inst_seq().len() == proc.proc.blocks@[i].1 - proc.proc.blocks@[i].0,
        forall|j: int|
            0 <= j < block.inst_seq().len() ==> #[trigger] block.inst_seq()[j]
                == proc.proc.insts@[proc.proc.blocks@[i].0 + j],
{
}

/// The instructions of all blocks of a procedure, in assembly order, are the instructions of the
/// procedure, and their bytes are its code, if the blocks follow each other without gaps.
pub proof fn law_blocks_make_proc<'a>(proc: Proc<'a>, blocks: Seq<VBlock<'a>>)
    requires
        blocks.len() > 0,
        blocks.len() == proc.proc.blocks@.len(),
        blocks.len() == proc.proc.block_addr@.len(),
        forall|i: int|
            0 <= i < blocks.len() ==> (#[trigger] blocks[i]).shows(proc, i) && proc.has_block(i),
        proc.proc.block_addr@[0] == 0,
        proc.proc.blocks@[0].0 == 0,
        forall|i: int, j: int|
            0 <= i && j == i + 1 && j < blocks.len() ==> (#[trigger] proc.proc.blocks@[i]).1 == (
            #[trigger] proc.proc.blocks@[j]).0,
        proc.proc.blocks@[blocks.len() - 1].1 == proc.proc.insts@.len(),
    ensures
        blocks.map_values(|b: VBlock<'a>| b.inst_seq()).flatten() == proc.proc.insts@,
        blocks.map_values(|b: VBlock<'a>| b.bytes()).flatten() == proc.content@.take(
            proc.proc.len as int,
        ),
{
    let n = blocks.len() as int;
    lemma_blocks_make_proc(proc, blocks, n);
    assert(blocks.take(n) =~= blocks);
    assert(blocks[n - 1].shows(proc, n - 1) && proc.has_block(n - 1));
    law_block_shown(blocks[n - 1], proc, n - 1);
    assert(proc.proc.insts@.take(proc.proc.insts@.len() as int) =~= proc.proc.insts@);
}

/// The first blocks of a procedure make up its first instructions and bytes.
proof fn lemma_blocks_make_proc<'a>(proc: Proc<'a>, blocks: Seq<VBlock<'a>>, n: int)
    requires
        0 < n <= blocks.len(),
        blocks.len() == proc.proc.blocks@.len(),
        blocks.len() == proc.proc.block_addr@.len(),
        forall|i: int|
            0 <= i < blocks.len() ==> (#[trigger] blocks[i]).shows(proc, i) && proc.has_block(i),
        proc.proc.block_addr@[0] == 0,
        proc.proc.blocks@[0].0 == 0,
        forall|i: int, j: int|
            0 <= i && j == i + 1 && j < blocks.len() ==> (#[trigger] proc.proc.blocks@[i]).1 == (
            #[trigger] proc.proc.blocks@[j]).0,
    ensures
        blocks.take(n).map_values(|b: VBlock<'a>| b.inst_seq()).flatten() == proc.proc.insts@.take(
            proc.proc.blocks@[n - 1].1 as int,
        ),
        blocks.take(n).map_values(|b: VBlock<'a>| b.bytes()).flatten() == proc.content@.take(
            blocks[n - 1].offset() + blocks[n - 1].bytes().len(),
        ),
    decreases n,
{
    let i = n - 1;
    let block = blocks[i];
    let insts = |b: VBlock<'a>| b.inst_seq();
    let bytes = |b: VBlock<'a>| b.bytes();
    assert(block.shows(proc, i) && proc.has_block(i));
    law_block_shown(block, proc, i);
    assert(blocks.take(n) =~= blocks.take(i).push(block));
    assert(blocks.take(n).map_values(insts) =~= blocks.take(i).map_values(insts).push(
        block.inst_seq(),
    ));
    assert(blocks.take(n).map_values(bytes) =~= blocks.take(i).map_values(bytes).push(
        block.bytes(),
    ));
    blocks.take(i).map_values(insts).lemma_flatten_push(block.inst_seq());
    blocks.take(i).map_values(bytes).lemma_flatten_push(block.bytes());
    if i == 0 {
        assert(blocks.take(i).map_values(insts) =~= Seq::empty());
        assert(blocks.take(i).map_values(bytes) =~= Seq::empty());
        assert(Seq::<Seq<VInst>>::empty().flatten() =~= Seq::empty());
        assert(Seq::<Seq<u8>>::empty().flatten() =~= Seq::empty());
    } else {
        lemma_blocks_make_proc(proc, blocks, i);
        assert(blocks[i - 1].shows(proc, i - 1) && proc.has_block(i - 1));
        law_block_shown(blocks[i - 1], proc, i - 1);
        assert(proc.proc.blocks@[i - 1].1 == proc.proc.blocks@[i].0);
    }
    assert(blocks.take(n).map_values(insts).flatten() =~= proc.proc.insts@.take(
        proc.proc.blocks@[i].1 as int,
    ));
    assert(blocks.take(n).map_values(bytes).flatten() =~= proc.content@.take(
        block.offset() + block.bytes().len(),
    ));
}

/// The first instruction of a block starts where the block starts, and each other one where the
/// one before it ends.
pub proof fn law_inst_addresses(start: int, insts: Seq<VInst>, k: nat)
    ensures
        inst_addr(start, insts, 0) == start,
        inst_addr(start, insts, k + 1) == inst_addr(start, insts, k) + insts[k as int].layout.bytes,
{
}

/// The instructions of a block that is shown make up its bytes, if their layouts fill it.
pub proof fn law_insts_make_block<'a>(block: VBlock<'a>, proc: Proc<'a>, i: int)
    requires
        block.shows(proc, i),
        proc.has_block(i),
        inst_addr(block.offset() as int, block.inst_seq(), block.inst_seq().len())
            == block.offset() + block.bytes().len(),
    ensures
        joined_insts(
            proc.content@,
            block.offset() as int,
            block.inst_seq(),
            block.inst_seq().len(),
        ) == block.bytes(),
{
    law_insts_join(
        proc.content@,
        block.offset() as int,
        block.inst_seq(),
        block.inst_seq().len(),
    );
}

/// An instruction can be listed exactly if the address where it ends can be represented; when
/// none is left, the listing can always be asked again.
pub proof fn law_inst_listed(iter: InstIter<'_>, end: int)
    requires
        iter.rest().len() > 0 ==> end == iter.addr() + iter.rest()[0].layout.bytes,
    ensures
        iter.rest().len() == 0 ==> iter.can_step(),
        iter.rest().len() > 0 ==> (iter.can_step() <==> end <= u32::MAX),
{
}

/// The listing of the items can always be asked again when no item is left.
pub proof fn law_items_end(iter: AssemblyItemIter<'_>)
    requires
        iter.index() == 1 + iter.linked().funcs@.len() + iter.linked().consts.ordered@.len(),
    ensures
        iter.can_step(),
{
}

} // verus!
