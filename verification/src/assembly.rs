//! The items of an assembled program, in the order in which they stand in the file.
use crate::code::{align_up, law_padding, padded_end, ConstRef, LinkedCode, PCode, TEXT_START};
use crate::ids::{Idx, ProcId, Symbol};
use crate::mir::Cfg;
use crate::procs::{code_ready, Proc};
use vstd::prelude::*;
use vstd::slice::slice_subrange;

verus! {

broadcast use vstd::std_specs::hash::group_hash_axioms;

/// A decomposition of assembled results of the top level program items.
#[derive(Debug)]
pub enum AssemblyItem<'a> {
    /// Insert a block of bytes corresponding to a function.
    Proc(Proc<'a>),
    /// Insert a block of bytes corresponding to a constant.
    Const(Const<'a>),
}

/// A constant that has been written to the read-only section.
#[derive(Debug)]
#[non_exhaustive]
pub struct Const<'a> {
    /// The name of this constant.
    pub name: Symbol,
    /// The starting virtual address of this constant.
    pub start: u32,
    /// The byte data stored for this constant.
    pub content: &'a [u8],
}

impl LinkedCode {
    /// The number of items: the init function, the functions and the constants.
    pub open spec fn item_count(self) -> nat {
        1 + self.funcs@.len() + self.consts.ordered@.len()
    }

    /// Whether item `k` is a procedure. The procedures come first, and the init function comes
    /// first of all.
    pub open spec fn is_text(self, k: int) -> bool {
        k <= self.funcs@.len()
    }

    /// The procedure that item `k` is.
    pub open spec fn text_id(k: int) -> Option<ProcId> {
        if k == 0 {
            None
        } else {
            Some(ProcId((k - 1) as u32))
        }
    }

    /// The constant that item `k` is.
    pub open spec fn const_name(self, k: int) -> Symbol {
        self.consts.ordered@[k - 1 - self.funcs@.len()]
    }

    /// Whether a constant has a place in the read-only section.
    pub open spec fn has_const(self, name: Symbol) -> bool {
        &&& self.consts.map@.contains_key(name.0)
        &&& self.consts.map@[name.0].1 is Ptr
    }

    /// The virtual address at which a constant of the read-only section starts.
    pub open spec fn const_start(self, name: Symbol) -> int {
        TEXT_START + self.text_size + self.consts.map@[name.0].1->Ptr_0
    }

    /// The virtual address at which item `k` starts. The procedures follow each other, each
    /// with its padding; a constant starts where the linker has put it.
    pub open spec fn item_start(self, k: int) -> int
        decreases k,
    {
        if k <= 0 {
            TEXT_START as int
        } else if self.is_text(k) {
            align_up(self.item_start(k - 1) + self.pcode(Self::text_id(k - 1)).len)
        } else {
            self.const_start(self.const_name(k))
        }
    }

    /// The virtual address at which item `k` ends, with the padding that belongs to it.
    pub open spec fn item_end(self, k: int) -> int {
        if self.is_text(k) {
            align_up(self.item_start(k) + self.pcode(Self::text_id(k)).len)
        } else {
            self.item_start(k) + self.consts.map@[self.const_name(k).0].0
        }
    }

    /// The virtual address that is reached when the first `k` items have been written.
    pub open spec fn item_pos(self, k: int) -> int {
        if k <= 0 {
            TEXT_START as int
        } else {
            self.item_end(k - 1)
        }
    }

    /// The virtual address at which the item after the first `k` items starts. Where there is no
    /// such item, or it is a constant without an address, this is where the items before end.
    pub open spec fn next_pos(self, k: int) -> int {
        if k < self.item_count() && (self.is_text(k) || (self.has_const(self.const_name(k))
            && self.item_start(k) <= u32::MAX)) {
            self.item_start(k)
        } else {
            self.item_pos(k)
        }
    }

    /// Whether item `k` is there and lies in a segment of `size` bytes.
    pub open spec fn item_fits(self, k: int, size: nat) -> bool {
        if self.is_text(k) {
            &&& k <= u32::MAX
            &&& self.has_proc(Self::text_id(k))
            &&& Self::code_fits(self.item_start(k), self.pcode(Self::text_id(k)).len, size)
        } else {
            &&& self.has_const(self.const_name(k))
            &&& self.item_end(k) <= u32::MAX
            &&& self.item_end(k) - TEXT_START <= size
        }
    }

    /// Whether item `k` can be assembled into a segment of `size` bytes: it lies in the segment,
    /// it starts where the items before it end, it is not empty, and its padding, if it is a
    /// procedure, is shorter than the alignment.
    pub open spec fn item_ok(self, k: int, size: nat) -> bool {
        &&& self.item_fits(k, size)
        &&& self.item_start(k) == self.item_pos(k)
        &&& self.item_start(k) < self.item_end(k)
        &&& self.is_text(k) ==> self.item_end(k) - self.item_start(k) - self.pcode(
            Self::text_id(k),
        ).len < crate::code::FUNCTION_ALIGN
    }

    /// Whether the items can be assembled into a segment of `size` bytes, and fill it.
    pub open spec fn assembly_ok(self, size: nat) -> bool {
        &&& forall|k: int| 0 <= k < self.item_count() ==> #[trigger] self.item_ok(k, size)
        &&& self.item_pos(self.item_count() as int) - TEXT_START == size
    }
}

impl<'a> AssemblyItem<'a> {
    /// Whether this is item `k` of a program whose segment is given.
    pub open spec fn shows(self, code: LinkedCode, segment: Seq<u8>, k: int) -> bool {
        match self {
            AssemblyItem::Proc(proc) => {
                &&& code.is_text(k)
                &&& proc.shows(code, segment, LinkedCode::text_id(k), code.item_start(k))
            },
            AssemblyItem::Const(data) => {
                &&& !code.is_text(k)
                &&& data.name == code.const_name(k)
                &&& data.start == code.item_start(k)
                &&& data.content@ == LinkedCode::bytes(
                    segment,
                    code.item_start(k),
                    code.item_end(k),
                )
            },
        }
    }

    /// The starting virtual address of the item being assembled.
    #[must_use]
    pub fn start(&self) -> (r: u32)
        ensures
            self matches AssemblyItem::Proc(proc) ==> r == proc.start,
            self matches AssemblyItem::Const(data) ==> r == data.start,
    {
        match self {
            AssemblyItem::Proc(proc) => proc.start,
            AssemblyItem::Const(data) => data.start,
        }
    }

    /// The byte slice in the file corresponding to the item being assembled.
    #[must_use]
    pub fn content(&self) -> (r: &'a [u8])
        ensures
            self matches AssemblyItem::Proc(proc) ==> r@ == proc.content@,
            self matches AssemblyItem::Const(data) ==> r@ == data.content@,
    {
        match self {
            AssemblyItem::Proc(proc) => proc.content,
            AssemblyItem::Const(data) => data.content,
        }
    }
}

/// What comes next.
#[derive(Debug)]
enum AssemblyItemState {
    /// The init function.
    Init,
    /// A function.
    Proc(ProcId),
    /// A constant, by its position.
    Const(usize),
}

/// An iterator over the top level program items in assembly order (order in the file).
#[derive(Debug)]
pub struct AssemblyItemIter<'a> {
    code: &'a LinkedCode,
    pos: u32,
    content: &'a [u8],
    state: AssemblyItemState,
}

impl<'a> AssemblyItemIter<'a> {
    /// The program whose items are listed.
    pub closed spec fn linked(self) -> LinkedCode {
        *self.code
    }

    /// The segment that the items are taken from.
    pub closed spec fn segment(self) -> Seq<u8> {
        self.content@
    }

    /// The number of items that have been listed.
    pub closed spec fn index(self) -> nat {
        match self.state {
            AssemblyItemState::Init => 0,
            AssemblyItemState::Proc(n) => 1 + n.0 as nat,
            AssemblyItemState::Const(i) => 1 + self.code.funcs@.len() + i as nat,
        }
    }

    /// The items that have been listed are there, and end at the position.
    #[verifier::type_invariant]
    spec fn in_place(self) -> bool {
        &&& self.pos == self.code.item_pos(self.index() as int)
        &&& match self.state {
            AssemblyItemState::Init => true,
            AssemblyItemState::Proc(n) => n.0 <= self.code.funcs@.len(),
            AssemblyItemState::Const(i) => i <= self.code.consts.ordered@.len(),
        }
    }

    /// Whether the next item, if there is one, is there and lies in the segment.
    pub open spec fn can_step(self) -> bool {
        self.index() < self.linked().item_count() ==> self.linked().item_fits(
            self.index() as int,
            self.segment().len(),
        )
    }

    /// The items of a program.
    pub(crate) fn new(code: &'a LinkedCode, content: &'a [u8]) -> (r: Self)
        ensures
            r.linked() == *code,
            r.segment() == content@,
            r.index() == 0,
    {
        AssemblyItemIter { code, pos: TEXT_START, content, state: AssemblyItemState::Init }
    }

    /// The virtual address at which the next item will start. When all items have been listed,
    /// this is where the last one ends.
    #[must_use]
    pub fn pos(&self) -> (r: u32)
        ensures
            self.index() <= self.linked().item_count(),
            r == self.linked().next_pos(self.index() as int),
            self.index() < self.linked().item_count() && self.can_step() ==> r
                == self.linked().item_start(self.index() as int),
    {
        proof {
            use_type_invariant(self);
        }
        let i: usize = match self.state {
            AssemblyItemState::Init => {
                return self.pos;
            },
            AssemblyItemState::Proc(n) => {
                if n.into_usize() < self.code.funcs.len() {
                    return self.pos;
                }
                0
            },
            AssemblyItemState::Const(i) => i,
        };
        if i >= self.code.consts.ordered.len() {
            return self.pos;
        }
        assert(self.linked().const_name(self.index() as int) == self.code.consts.ordered@[i as int]);
        match self.code.consts.map.get(&self.code.consts.ordered[i].0) {
            Some((_, ConstRef::Ptr(addr))) => {
                let start: u64 = TEXT_START as u64 + self.code.text_size as u64 + *addr as u64;
                if start <= u32::MAX as u64 {
                    start as u32
                } else {
                    self.pos
                }
            },
            _ => self.pos,
        }
    }

    /// The `n` bytes of the segment from the address `start`. The next item comes after them.
    fn advance(&mut self, start: u32, n: u32, state: AssemblyItemState) -> (r: &'a [u8])
        requires
            TEXT_START <= start,
            start + n <= u32::MAX,
            start + n - TEXT_START <= old(self).content@.len(),
            (AssemblyItemIter { pos: (start + n) as u32, state, ..*old(self) }).in_place(),
        ensures
            r@ == LinkedCode::bytes(old(self).content@, start as int, start + n),
            *final(self) == (AssemblyItemIter { pos: (start + n) as u32, state, ..*old(self) }),
    {
        let off: usize = (start - TEXT_START) as usize;
        let left = slice_subrange(self.content, off, off + n as usize);
        *self = AssemblyItemIter { code: self.code, pos: start + n, content: self.content, state };
        left
    }

    /// The next `len` bytes of the segment, with the padding that follows them. The next item
    /// comes after them.
    fn padded_content(&mut self, len: u32, state: AssemblyItemState) -> (r: &'a [u8])
        requires
            LinkedCode::code_fits(old(self).pos as int, len, old(self).content@.len()),
            (AssemblyItemIter {
                pos: align_up(old(self).pos + len) as u32,
                state,
                ..*old(self)
            }).in_place(),
        ensures
            r@ == LinkedCode::bytes(
                old(self).content@,
                old(self).pos as int,
                align_up(old(self).pos + len),
            ),
            *final(self) == (AssemblyItemIter {
                pos: align_up(old(self).pos + len) as u32,
                state,
                ..*old(self)
            }),
    {
        let aligned: u32 = padded_end(self.pos, len);
        self.advance(self.pos, aligned - self.pos, state)
    }

    /// Whether the next item, if there is one, is there and lies in the segment.
    pub fn ready(&self) -> (r: bool)
        ensures
            r == self.can_step(),
    {
        proof {
            use_type_invariant(self);
        }
        let i: usize = match self.state {
            AssemblyItemState::Init => {
                return code_ready(self.pos, self.code.init.1.len, self.content.len());
            },
            AssemblyItemState::Proc(n) => {
                if let Some(func) = self.code.funcs.get(n) {
                    return n.0 < u32::MAX && self.code.named(n) && code_ready(
                        self.pos,
                        func.1.len,
                        self.content.len(),
                    );
                }
                0
            },
            AssemblyItemState::Const(i) => i,
        };
        if i >= self.code.consts.ordered.len() {
            return true;
        }
        assert(self.linked().const_name(self.index() as int) == self.code.consts.ordered@[i as int]);
        match self.code.consts.map.get(&self.code.consts.ordered[i].0) {
            Some((size, ConstRef::Ptr(addr))) => {
                let start: u64 = TEXT_START as u64 + self.code.text_size as u64 + *addr as u64;
                let end: u64 = start + *size as u64;
                end <= u32::MAX as u64 && (end - TEXT_START as u64) as usize <= self.content.len()
            },
            _ => false,
        }
    }

    /// The next item.
    pub fn next(&mut self) -> (r: Option<AssemblyItem<'a>>)
        requires
            old(self).can_step(),
        ensures
            final(self).linked() == old(self).linked(),
            final(self).segment() == old(self).segment(),
            old(self).index() <= old(self).linked().item_count(),
            final(self).index() <= old(self).linked().item_count(),
            old(self).index() == old(self).linked().item_count() ==> r is None
                && final(self).index() == old(self).index(),
            old(self).index() < old(self).linked().item_count() ==> {
                &&& r is Some
                &&& r->0.shows(old(self).linked(), old(self).segment(), old(self).index() as int)
                &&& final(self).index() == old(self).index() + 1
            },
            r matches Some(AssemblyItem::Proc(proc)) ==> {
                &&& old(self).index() <= old(self).linked().funcs@.len()
                &&& proc.id is None <==> old(self).index() == 0
                &&& proc.id is None ==> *proc.cfg == old(self).linked().init.0
                &&& proc.id matches Some(f) ==> {
                    &&& f.0 + 1 == old(self).index()
                    &&& *proc.cfg == old(self).linked().mir@[old(
                        self,
                    ).linked().func_names@[f.0 as int].0]
                    &&& *proc.proc == old(self).linked().funcs@[f.0 as int].1
                }
            },
            r matches Some(AssemblyItem::Const(data)) ==> {
                let code = old(self).linked();
                &&& old(self).index() > code.funcs@.len()
                &&& data.name == code.consts.ordered@[old(self).index() - 1 - code.funcs@.len()]
                &&& code.consts.map@.contains_key(data.name.0)
                &&& data.content@.len() == code.consts.map@[data.name.0].0
                &&& code.consts.map@[data.name.0].1 matches ConstRef::Ptr(addr)
                &&& data.start == TEXT_START + code.text_size + addr
            },
    {
        proof {
            use_type_invariant(&*self);
        }
        let start: u32 = self.pos;
        match self.state {
            AssemblyItemState::Init => {
                let content = self.padded_content(
                    self.code.init.1.len,
                    AssemblyItemState::Proc(ProcId(0)),
                );
                return Some(
                    AssemblyItem::Proc(
                        Proc {
                            code: self.code,
                            cfg: &self.code.init.0,
                            proc: &self.code.init.1,
                            id: None,
                            start,
                            content,
                        },
                    ),
                );
            },
            AssemblyItemState::Proc(n) => {
                if let Some(func) = self.code.funcs.get(n) {
                    let code: &'a LinkedCode = self.code;
                    let name: Symbol = code.func_names.0[n.into_usize()];
                    let cfg: &'a Cfg = code.mir.get(&name.0).unwrap();
                    let proc: &'a PCode = &func.1;
                    let content = self.padded_content(
                        proc.len,
                        AssemblyItemState::Proc(ProcId(n.0 + 1)),
                    );
                    return Some(
                        AssemblyItem::Proc(Proc { code, cfg, proc, id: Some(n), start, content }),
                    );
                }
                self.state = AssemblyItemState::Const(0);
            },
            AssemblyItemState::Const(_) => {},
        }
        match self.state {
            AssemblyItemState::Const(i) => {
                if i >= self.code.consts.ordered.len() {
                    return None;
                }
                let name: Symbol = self.code.consts.ordered[i];
                assert(self.linked().const_name(self.index() as int) == name);
                match self.code.consts.map.get(&name.0) {
                    Some((size, ConstRef::Ptr(addr))) => {
                        let start: u32 = TEXT_START + self.code.text_size + *addr;
                        let content = self.advance(start, *size, AssemblyItemState::Const(i + 1));
                        Some(AssemblyItem::Const(Const { name, start, content }))
                    },
                    _ => None,
                }
            },
            _ => None,
        }
    }

    /// The number of items that are still to come.
    pub fn len(&self) -> (r: usize)
        requires
            self.linked().item_count() <= usize::MAX,
        ensures
            r == self.linked().item_count() - self.index(),
    {
        proof {
            use_type_invariant(self);
        }
        match self.state {
            AssemblyItemState::Init => self.code.funcs.len() + self.code.consts.ordered.len() + 1,
            AssemblyItemState::Proc(n) => (self.code.funcs.len() - n.into_usize())
                + self.code.consts.ordered.len(),
            AssemblyItemState::Const(i) => self.code.consts.ordered.len() - i,
        }
    }

    /// The number of items that are still to come, as a lower and an upper bound.
    pub fn size_hint(&self) -> (r: (usize, Option<usize>))
        requires
            self.linked().item_count() <= usize::MAX,
        ensures
            r.0 == self.linked().item_count() - self.index(),
            r.1 == Some(r.0),
    {
        let n: usize = self.len();
        (n, Some(n))
    }
}

/// The bytes of the first `n` items of a program, one after the other.
pub open spec fn joined_items(code: LinkedCode, segment: Seq<u8>, n: nat) -> Seq<u8>
    decreases n,
{
    if n == 0 {
        Seq::empty()
    } else {
        let k = n - 1;
        joined_items(code, segment, k as nat) + LinkedCode::bytes(
            segment,
            code.item_start(k),
            code.item_end(k),
        )
    }
}

/// The first items of a program make up its segment up to the end of the last one of them.
proof fn lemma_items_join(code: LinkedCode, segment: Seq<u8>, n: nat)
    requires
        code.assembly_ok(segment.len()),
        n <= code.item_count(),
    ensures
        TEXT_START <= code.item_pos(n as int) <= TEXT_START + segment.len(),
        joined_items(code, segment, n) == LinkedCode::bytes(
            segment,
            TEXT_START as int,
            code.item_pos(n as int),
        ),
    decreases n,
{
    if n > 0 {
        let k = n - 1;
        lemma_items_join(code, segment, k as nat);
        assert(code.item_ok(k, segment.len()));
    }
    assert(joined_items(code, segment, n) =~= LinkedCode::bytes(
        segment,
        TEXT_START as int,
        code.item_pos(n as int),
    ));
}

/// The items of a program that can be assembled into a segment make up the whole segment, in
/// assembly order and without gaps.
pub proof fn law_items_join(code: LinkedCode, segment: Seq<u8>)
    requires
        code.assembly_ok(segment.len()),
    ensures
        joined_items(code, segment, code.item_count()) == segment,
{
    lemma_items_join(code, segment, code.item_count());
    assert(LinkedCode::bytes(
        segment,
        TEXT_START as int,
        code.item_pos(code.item_count() as int),
    ) =~= segment);
}

/// The position before an item that can be listed is where the item starts.
pub proof fn law_pos_is_next_start(code: LinkedCode, size: nat, k: int)
    requires
        0 <= k < code.item_count(),
        code.item_fits(k, size),
    ensures
        code.next_pos(k) == code.item_start(k),
{
}

/// In a program that can be assembled, the position is always where the items end that come
/// before it.
pub proof fn law_pos_is_last_end(code: LinkedCode, size: nat, k: int)
    requires
        code.assembly_ok(size),
        0 <= k <= code.item_count(),
    ensures
        code.next_pos(k) == code.item_pos(k),
{
    if k < code.item_count() {
        assert(code.item_ok(k, size));
    }
}

/// In a program that can be assembled, later items start at higher addresses. So no two items
/// start at the same address.
pub proof fn law_item_starts_increase(code: LinkedCode, size: nat, i: int, j: int)
    requires
        code.assembly_ok(size),
        0 <= i < j < code.item_count(),
    ensures
        code.item_start(i) < code.item_end(i) <= code.item_start(j),
    decreases j - i,
{
    assert(code.item_ok(i, size));
    assert(code.item_ok(j, size));
    if i + 1 < j {
        law_item_starts_increase(code, size, i, j - 1);
        assert(code.item_ok(j - 1, size));
    }
}

/// The functions that follow the init function start at multiples of the alignment.
pub proof fn law_functions_aligned(code: LinkedCode, k: int)
    requires
        0 < k,
        code.is_text(k),
    ensures
        code.item_start(k) % (crate::code::FUNCTION_ALIGN as int) == 0,
{
    law_padding(code.item_start(k - 1) + code.pcode(LinkedCode::text_id(k - 1)).len);
}

/// A procedure is the same among the items of a program as among its proofs, if the linker has
/// recorded the address at which it is assembled.
pub proof fn law_item_is_proof<'a>(
    code: LinkedCode,
    segment: Seq<u8>,
    k: int,
    item: Proc<'a>,
    proof_item: Proc<'a>,
)
    requires
        0 <= k,
        code.is_text(k),
        code.proc_start(LinkedCode::text_id(k)) == code.item_start(k),
        AssemblyItem::Proc(item).shows(code, segment, k),
        proof_item.shows(
            code,
            segment,
            LinkedCode::text_id(k),
            code.proc_start(LinkedCode::text_id(k)) as int,
        ),
    ensures
        item.code == proof_item.code,
        item.cfg == proof_item.cfg,
        item.proc == proof_item.proc,
        item.id == proof_item.id,
        item.start == proof_item.start,
        item.content@ == proof_item.content@,
{
}

} // verus!
