//! Procedures, and the order in which they are to be proved.
use crate::code::{align_up, law_padding, padded_end, LinkedCode, PCode, FUNCTION_ALIGN, TEXT_START};
use crate::ids::{Idx, ProcId, Symbol};
use crate::mir::Cfg;
use vstd::prelude::*;
use vstd::slice::slice_subrange;

verus! {

broadcast use vstd::std_specs::hash::group_hash_axioms;

/// A correctness theorem for a function, or the init function.
#[derive(Clone, Copy, Debug)]
pub struct Proc<'a> {
    /// The program that the procedure belongs to.
    pub code: &'a LinkedCode,
    /// The control flow graph of the procedure.
    pub cfg: &'a Cfg,
    /// The assembled code of the procedure.
    pub proc: &'a PCode,
    /// The function being proven, or `None` for the init function.
    pub id: Option<ProcId>,
    /// The starting virtual address for the function.
    pub start: u32,
    /// The code of the function as a byte slice. Includes trailing padding.
    pub content: &'a [u8],
}

impl<'a> Proc<'a> {
    /// Whether this is the procedure `id` of a program, placed at the address `start`, with
    /// its code and trailing padding taken from the segment.
    pub open spec fn shows(
        self,
        code: LinkedCode,
        segment: Seq<u8>,
        id: Option<ProcId>,
        start: int,
    ) -> bool {
        &&& *self.code == code
        &&& *self.cfg == code.cfg(id)
        &&& *self.proc == code.pcode(id)
        &&& self.id == id
        &&& self.start == start
        &&& self.content@ == LinkedCode::bytes(
            segment,
            start,
            align_up(start + code.pcode(id).len),
        )
    }

    /// The name of the function, or `None` for the init function.
    #[must_use]
    pub fn name(&self) -> (r: Option<Symbol>)
        requires
            self.id matches Some(f) ==> f.0 < self.code.func_names@.len(),
        ensures
            self.id is None ==> r is None,
            self.id matches Some(f) ==> r == Some(self.code.func_names@[f.0 as int]),
    {
        match self.id {
            Some(id) => Some(self.code.func_names.0[id.into_usize()]),
            None => None,
        }
    }

    /// The size of the procedure with padding omitted.
    #[must_use]
    pub fn len_no_padding(&self) -> (r: u32)
        ensures
            r == self.proc.len,
    {
        self.proc.len
    }

    /// The trailing padding of the procedure.
    #[must_use]
    pub fn trailing_padding(&self) -> (r: &'a [u8])
        requires
            self.proc.len <= self.content@.len(),
        ensures
            r@ == self.content@.skip(self.proc.len as int),
    {
        let r = slice_subrange(self.content, self.len_no_padding() as usize, self.content.len());
        assert(r@ == self.content@.skip(self.proc.len as int));
        r
    }
}

impl LinkedCode {
    /// Whether a function has a name, and a control flow graph under its name.
    pub(crate) fn named(&self, f: ProcId) -> (r: bool)
        ensures
            r <==> f.0 < self.func_names@.len() && self.mir@.contains_key(
                self.func_names@[f.0 as int].0,
            ),
    {
        match self.func_names.get(f) {
            Some(name) => self.mir.contains_key(&name.0),
            None => false,
        }
    }

    /// Whether the procedure `id` is there and lies in a segment of `size` bytes.
    pub fn proc_ready(&self, id: Option<ProcId>, size: usize) -> (r: bool)
        ensures
            r == self.proc_fits(id, size as nat),
    {
        let (start, len): (u32, u32) = match id {
            Some(f) => {
                match self.funcs.get(f) {
                    Some(func) => (func.0, func.1.len),
                    None => {
                        return false;
                    },
                }
            },
            None => (TEXT_START, self.init.1.len),
        };
        let named = match id {
            Some(f) => self.named(f),
            None => true,
        };
        named && code_ready(start, len, size)
    }

    /// The procedure `id` of the program whose segment holds `content`. `None` is the init
    /// function.
    #[must_use]
    pub fn proc_proof<'a>(&'a self, content: &'a [u8], id: Option<ProcId>) -> (r: Proc<'a>)
        requires
            self.proc_fits(id, content@.len()),
        ensures
            r.shows(*self, content@, id, self.proc_start(id) as int),
            r.id == id,
            id matches Some(f) ==> {
                &&& *r.cfg == self.mir@[self.func_names@[f.0 as int].0]
                &&& *r.proc == self.funcs@[f.0 as int].1
                &&& r.start == self.funcs@[f.0 as int].0
            },
            id is None ==> *r.cfg == self.init.0 && *r.proc == self.init.1 && r.start == TEXT_START,
    {
        let (start, cfg, proc): (u32, &Cfg, &PCode) = match id {
            Some(f) => {
                let func = &self.funcs.0[f.into_usize()];
                let name: Symbol = self.func_names.0[f.into_usize()];
                let cfg = self.mir.get(&name.0).unwrap();
                (func.0, cfg, &func.1)
            },
            None => (TEXT_START, &self.init.0, &self.init.1),
        };
        let end: u32 = padded_end(start, proc.len);
        let bytes = slice_subrange(
            content,
            (start - TEXT_START) as usize,
            (end - TEXT_START) as usize,
        );
        Proc { code: self, cfg, proc, id, start, content: bytes }
    }
}

/// Whether code of length `len` at the address `start`, with its trailing padding, lies in a
/// segment of `size` bytes.
pub(crate) fn code_ready(start: u32, len: u32, size: usize) -> (r: bool)
    ensures
        r == LinkedCode::code_fits(start as int, len, size as nat),
{
    if start < TEXT_START {
        return false;
    }
    if len > u32::MAX - FUNCTION_ALIGN || start > u32::MAX - FUNCTION_ALIGN - len {
        return false;
    }
    let end: u32 = padded_end(start, len);
    (end - TEXT_START) as usize <= size
}

/// An iterator over the procedures in proof order (function dependency order, the order in
/// which correctness theorems should be proved).
#[derive(Debug)]
pub struct ProcIter<'a> {
    code: &'a LinkedCode,
    content: &'a [u8],
    order: Option<&'a [ProcId]>,
}

impl<'a> ProcIter<'a> {
    /// The program whose procedures are listed.
    pub closed spec fn linked(self) -> LinkedCode {
        *self.code
    }

    /// The segment that the procedures are taken from.
    pub closed spec fn segment(self) -> Seq<u8> {
        self.content@
    }

    /// The functions that are still to come before the init function, or `None` when the init
    /// function has been listed.
    pub closed spec fn rest(self) -> Option<Seq<ProcId>> {
        match self.order {
            Some(order) => Some(order@),
            None => None,
        }
    }

    /// The procedures that are still to come, in order.
    pub open spec fn procs(self) -> Seq<Option<ProcId>> {
        match self.rest() {
            Some(order) => order.map_values(|f: ProcId| Some(f)).push(None),
            None => Seq::empty(),
        }
    }

    /// The procedures of a program, in proof order.
    pub(crate) fn new(code: &'a LinkedCode, content: &'a [u8]) -> (r: Self)
        ensures
            r.linked() == *code,
            r.segment() == content@,
            r.rest() == Some(code.postorder@),
    {
        ProcIter { code, content, order: Some(code.postorder.as_slice()) }
    }

    /// Whether the next procedure, if there is one, is there and lies in the segment.
    pub fn ready(&self) -> (r: bool)
        ensures
            r <==> self.procs().len() > 0 ==> self.linked().proc_fits(
                self.procs()[0],
                self.segment().len(),
            ),
    {
        match self.order {
            Some(order) => {
                if order.len() == 0 {
                    self.code.proc_ready(None, self.content.len())
                } else {
                    self.code.proc_ready(Some(order[0]), self.content.len())
                }
            },
            None => true,
        }
    }

    /// The next procedure: the functions in dependency order, and the init function last.
    pub fn next(&mut self) -> (r: Option<Proc<'a>>)
        requires
            old(self).procs().len() > 0 ==> old(self).linked().proc_fits(
                old(self).procs()[0],
                old(self).segment().len(),
            ),
        ensures
            final(self).linked() == old(self).linked(),
            final(self).segment() == old(self).segment(),
            old(self).procs().len() == 0 ==> r is None && final(self).procs() == old(
                self,
            ).procs(),
            old(self).procs().len() > 0 ==> {
                &&& r is Some
                &&& r->0.shows(
                    old(self).linked(),
                    old(self).segment(),
                    old(self).procs()[0],
                    old(self).linked().proc_start(old(self).procs()[0]) as int,
                )
                &&& final(self).procs() == old(self).procs().skip(1)
            },
    {
        match self.order {
            Some(order) => {
                let ghost before = self.procs();
                let func = if order.len() == 0 {
                    self.order = None;
                    None
                } else {
                    self.order = Some(slice_subrange(order, 1, order.len()));
                    Some(order[0])
                };
                assert(self.procs() =~= before.skip(1));
                Some(self.code.proc_proof(self.content, func))
            },
            None => None,
        }
    }

    /// The number of procedures that are still to come.
    pub fn len(&self) -> (r: usize)
        requires
            self.procs().len() <= usize::MAX,
        ensures
            r == self.procs().len(),
    {
        match self.order {
            Some(order) => order.len() + 1,
            None => 0,
        }
    }

    /// The number of procedures that are still to come, as a lower and an upper bound.
    pub fn size_hint(&self) -> (r: (usize, Option<usize>))
        requires
            self.procs().len() <= usize::MAX,
        ensures
            r.0 == self.procs().len(),
            r.1 == Some(r.0),
    {
        let n: usize = self.len();
        (n, Some(n))
    }
}

/// The content of a procedure is its code, followed by less padding than the alignment, up to an
/// address that is a multiple of the alignment.
pub proof fn law_proc_padding<'a>(
    proc: Proc<'a>,
    code: LinkedCode,
    segment: Seq<u8>,
    id: Option<ProcId>,
    start: int,
)
    requires
        proc.shows(code, segment, id, start),
        LinkedCode::code_fits(start, code.pcode(id).len, segment.len()),
    ensures
        proc.proc.len <= proc.content@.len() < proc.proc.len + FUNCTION_ALIGN,
        (proc.start + proc.content@.len()) % (FUNCTION_ALIGN as int) == 0,
{
    law_padding(start + code.pcode(id).len);
}

} // verus!
