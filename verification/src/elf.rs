//! The ELF file of a linked program, and what has to hold of it.
use crate::assembly::{joined_items, law_items_join, AssemblyItemIter};
use crate::check::check_tree;
use crate::code::{LinkedCode, TEXT_START};
use crate::context::{context_empty, entries};
use crate::ids::{IdxVec, ProcId, Symbol};
use crate::procs::{Proc, ProcIter};
use crate::soundness::{
    hyps_of, known_of, known_proved, law_known_proved, law_tree_sound, steps_sound, tree_steps,
};
use vstd::prelude::*;
use vstd::slice::slice_subrange;

verus! {

/// Where the ELF header ends and the program header starts.
pub const P_HEADER_START: usize = 0x40;

/// Where the field of the program header is that holds the size of the segment in the file.
pub const P_FILESZ: usize = 0x60;

/// Where the field of the program header is that holds the size of the segment in memory.
pub const P_MEMSZ: usize = 0x68;

/// Where the content of the program segment starts.
pub const CONTENT_START: usize = 0x78;

/// A constructed ELF file, which contains functions for extracting theorems about the
/// correctness of the parts of the file.
#[derive(Debug)]
pub struct ElfProof<'a> {
    code: &'a LinkedCode,
    /// The full ELF file.
    file: Vec<u8>,
}

/// Why an ELF file is not valid.
#[derive(Clone, Copy, Debug, PartialEq, Eq, Structural)]
pub enum ValidateError {
    /// The sizes in the program header do not agree with each other or with the file.
    Header,
    /// The items of the program do not make up the segment.
    Assembly,
    /// The control flow of some procedure cannot be proved.
    Proof,
}

/// The number that eight bytes stand for, the least significant byte first.
pub open spec fn le_u64(bytes: Seq<u8>) -> int {
    bytes[0] + bytes[1] * 0x100 + bytes[2] * 0x1_0000 + bytes[3] * 0x100_0000 + bytes[4]
        * 0x1_0000_0000 + bytes[5] * 0x100_0000_0000 + bytes[6] * 0x1_0000_0000_0000 + bytes[7]
        * 0x100_0000_0000_0000
}

/// The number that eight bytes stand for.
fn read_u64(bytes: &[u8]) -> (r: u64)
    requires
        bytes@.len() == 8,
    ensures
        r == le_u64(bytes@),
        vstd::bytes::spec_u64_to_le_bytes(r) == bytes@,
{
    let x: u64 = vstd::bytes::u64_from_le_bytes(bytes);
    proof {
        vstd::bytes::lemma_auto_spec_u64_to_from_le_bytes();
        vstd::bytes::spec_u64_to_le_bytes_to_open(x);
        assert(vstd::bytes::spec_u64_to_le_bytes(x) == bytes@);
        assert(x == (x & 0xff) as u8 + ((x >> 8) & 0xff) as u8 * 0x100 + ((x >> 16) & 0xff) as u8
            * 0x1_0000 + ((x >> 24) & 0xff) as u8 * 0x100_0000 + ((x >> 32) & 0xff) as u8
            * 0x1_0000_0000 + ((x >> 40) & 0xff) as u8 * 0x100_0000_0000 + ((x >> 48) & 0xff) as u8
            * 0x1_0000_0000_0000 + ((x >> 56) & 0xff) as u8 * 0x100_0000_0000_0000)
            by (bit_vector);
    }
    x
}

impl LinkedCode {
    /// Entry point for the proof object associated to the ELF file that has been written for
    /// this program.
    #[must_use]
    pub fn elf_proof(&self, file: Vec<u8>) -> (r: ElfProof<'_>)
        requires
            file@.len() >= CONTENT_START,
        ensures
            r.linked() == *self,
            r.image() == file@,
    {
        ElfProof { code: self, file }
    }

    /// Whether the procedure `id` lies in a segment of `size` bytes, and the proof of its
    /// blocks goes through.
    pub open spec fn proc_ok(self, id: Option<ProcId>, size: nat) -> bool {
        &&& self.proc_fits(id, size)
        &&& check_tree(self.cfg(id), self.cfg(id).tree, Map::empty()) is Some
    }

    /// Whether all procedures of the proof order, and the init function, are ok.
    pub open spec fn proofs_ok(self, size: nat) -> bool {
        &&& forall|i: int|
            0 <= i < self.postorder@.len() ==> self.proc_ok(
                Some(#[trigger] self.postorder@[i]),
                size,
            )
        &&& self.proc_ok(None, size)
    }
}

impl<'a> ElfProof<'a> {
    /// The program that the file was written for.
    pub closed spec fn linked(self) -> LinkedCode {
        *self.code
    }

    /// The bytes of the file.
    pub closed spec fn image(self) -> Seq<u8> {
        self.file@
    }

    /// The file holds both headers.
    #[verifier::type_invariant]
    spec fn has_headers(self) -> bool {
        self.file@.len() >= CONTENT_START
    }

    /// The content of the program segment.
    pub open spec fn segment(self) -> Seq<u8> {
        self.image().skip(CONTENT_START as int)
    }

    /// The size of the segment in the file, as the program header gives it.
    pub open spec fn filesz(self) -> int {
        le_u64(self.image().subrange(P_FILESZ as int, P_FILESZ + 8))
    }

    /// The size of the segment in memory, as the program header gives it.
    pub open spec fn memsz(self) -> int {
        le_u64(self.image().subrange(P_MEMSZ as int, P_MEMSZ + 8))
    }

    /// Whether the sizes in the program header agree with each other and with the file.
    pub open spec fn header_ok(self) -> bool {
        &&& self.filesz() <= self.memsz()
        &&& self.filesz() == self.segment().len()
        &&& self.segment().len() > 0
    }

    /// Whether the file is valid.
    pub open spec fn valid(self) -> bool {
        &&& self.header_ok()
        &&& self.linked().assembly_ok(self.segment().len())
        &&& self.linked().proofs_ok(self.segment().len())
    }

    /// The ELF header.
    #[must_use]
    pub fn header(&self) -> (r: &[u8])
        ensures
            r@ == self.image().take(P_HEADER_START as int),
            r@ == self.image().subrange(0, 0x40),
    {
        proof {
            use_type_invariant(self);
        }
        let r = slice_subrange(self.file.as_slice(), 0, P_HEADER_START);
        assert(r@ =~= self.image().take(P_HEADER_START as int));
        assert(r@ =~= self.image().subrange(0, 0x40));
        r
    }

    /// The program header.
    #[must_use]
    pub fn p_header(&self) -> (r: &[u8])
        ensures
            r@ == self.image().subrange(P_HEADER_START as int, CONTENT_START as int),
            r@ == self.image().subrange(0x40, 0x78),
    {
        proof {
            use_type_invariant(self);
        }
        slice_subrange(self.file.as_slice(), P_HEADER_START, CONTENT_START)
    }

    /// The content of the program segment (the main body of the file).
    #[must_use]
    pub fn content(&self) -> (r: &[u8])
        ensures
            r@ == self.segment(),
            r@ == self.image().subrange(0x78, self.image().len() as int),
    {
        proof {
            use_type_invariant(self);
        }
        let r = slice_subrange(self.file.as_slice(), CONTENT_START, self.file.len());
        assert(r@ =~= self.segment());
        r
    }

    /// The entry point address.
    #[must_use]
    pub fn entry(&self) -> (r: u64)
        ensures
            r == TEXT_START,
    {
        TEXT_START as u64
    }

    /// The size of the segment in the file image.
    #[must_use]
    pub fn p_filesz(&self) -> (r: u64)
        ensures
            r == self.filesz(),
            vstd::bytes::spec_u64_to_le_bytes(r) == self.image().subrange(0x60, 0x68),
    {
        proof {
            use_type_invariant(self);
        }
        read_u64(slice_subrange(self.file.as_slice(), P_FILESZ, P_FILESZ + 8))
    }

    /// The size of the segment in memory.
    #[must_use]
    pub fn p_memsz(&self) -> (r: u64)
        ensures
            r == self.memsz(),
            vstd::bytes::spec_u64_to_le_bytes(r) == self.image().subrange(0x68, 0x70),
    {
        proof {
            use_type_invariant(self);
        }
        read_u64(slice_subrange(self.file.as_slice(), P_MEMSZ, P_MEMSZ + 8))
    }

    /// The size of the BSS section (zeroed data following the read-only section).
    #[must_use]
    pub fn bss(&self) -> (r: u64)
        requires
            self.filesz() <= self.memsz(),
        ensures
            r == self.memsz() - self.filesz(),
    {
        self.p_memsz() - self.p_filesz()
    }

    /// The mapping from IDs to function names.
    #[must_use]
    pub fn func_names(&self) -> (r: &'a IdxVec<ProcId, Symbol>)
        ensures
            *r == self.linked().func_names,
    {
        &self.code.func_names
    }

    /// An iterator over the assembled items (procedures and constants).
    #[must_use]
    pub fn assembly(&self) -> (r: AssemblyItemIter<'_>)
        ensures
            r.linked() == self.linked(),
            r.segment() == self.segment(),
            r.index() == 0,
    {
        AssemblyItemIter::new(self.code, self.content())
    }

    /// An iterator over the functions, in function dependency order.
    #[must_use]
    pub fn proc_proofs(&self) -> (r: ProcIter<'_>)
        ensures
            r.linked() == self.linked(),
            r.segment() == self.segment(),
            r.rest() == Some(self.linked().postorder@),
    {
        ProcIter::new(self.code, self.content())
    }

    /// Construct a proof item directly for a given function, or the init function.
    #[must_use]
    pub fn proof_item(&self, func: Option<ProcId>) -> (r: Proc<'_>)
        requires
            self.linked().proc_fits(func, self.segment().len()),
        ensures
            r.shows(
                self.linked(),
                self.segment(),
                func,
                self.linked().proc_start(func) as int,
            ),
            func matches Some(f) ==> {
                &&& *r.cfg == self.linked().mir@[self.linked().func_names@[f.0 as int].0]
                &&& *r.proc == self.linked().funcs@[f.0 as int].1
            },
            func is None ==> *r.cfg == self.linked().init.0 && *r.proc == self.linked().init.1,
    {
        self.code.proc_proof(self.content(), func)
    }

    /// Checks that the sizes in the program header agree with each other and with the file.
    fn validate_header(&self) -> (r: bool)
        ensures
            r == self.header_ok(),
    {
        let size: usize = self.content().len();
        self.p_filesz() <= self.p_memsz() && self.p_filesz() == size as u64 && size > 0
    }

    /// Checks that the items of the program follow each other without gaps and fill the segment.
    fn validate_assembly(&self) -> (r: bool)
        ensures
            r == self.linked().assembly_ok(self.segment().len()),
    {
        let ghost code = self.linked();
        let ghost size = self.segment().len();
        let size_found: usize = self.content().len();
        let mut iter = self.assembly();
        let mut pos: u32 = TEXT_START;
        loop
            invariant
                iter.linked() == code,
                iter.segment().len() == size,
                iter.index() <= code.item_count(),
                code == self.linked(),
                size == self.segment().len(),
                size_found == size,
                pos == code.item_pos(iter.index() as int),
                TEXT_START <= pos,
                forall|k: int| 0 <= k < iter.index() ==> #[trigger] code.item_ok(k, size),
            decreases code.item_count() - iter.index(),
        {
            let ghost k = iter.index() as int;
            if !iter.ready() {
                assert(!code.item_ok(k, size));
                return false;
            }
            match iter.next() {
                None => {
                    return (pos - TEXT_START) as usize == size_found;
                },
                Some(item) => {
                    let content = item.content();
                    assert(content@.len() == code.item_end(k) - code.item_start(k));
                    if pos != item.start() || content.len() == 0 {
                        assert(!code.item_ok(k, size));
                        return false;
                    }
                    pos = pos + content.len() as u32;
                    assert(code.item_ok(k, size));
                },
            }
        }
    }

    /// Checks that the proof of every procedure goes through.
    fn validate_proofs(&self) -> (r: bool)
        ensures
            r == self.linked().proofs_ok(self.segment().len()),
    {
        let ghost code = self.linked();
        let ghost size = self.segment().len();
        let mut iter = self.proc_proofs();
        let ghost all = iter.procs();
        let ghost mut done = 0int;
        assert(all =~= all.skip(0));
        loop
            invariant
                iter.linked() == code,
                iter.segment().len() == size,
                code == self.linked(),
                size == self.segment().len(),
                0 <= done <= all.len(),
                iter.procs() == all.skip(done),
                all == code.postorder@.map_values(|f: ProcId| Some(f)).push(None),
                forall|i: int| 0 <= i < done ==> code.proc_ok(#[trigger] all[i], size),
            decreases all.len() - done,
        {
            if !iter.ready() {
                assert(!code.proc_ok(all[done], size));
                proof {
                    lemma_proofs_ok(code, size, all);
                }
                return false;
            }
            match iter.next() {
                None => {
                    proof {
                        lemma_proofs_ok(code, size, all);
                    }
                    return true;
                },
                Some(item) => {
                    let mut ctx = context_empty();
                    assert(entries(ctx) =~= Map::empty());
                    let tree = item.proof_tree();
                    assert(tree.outcome(Map::empty()) == check_tree(
                        code.cfg(all[done]),
                        code.cfg(all[done]).tree,
                        Map::empty(),
                    ));
                    if !tree.validate(&mut ctx) {
                        assert(!code.proc_ok(all[done], size));
                        proof {
                            lemma_proofs_ok(code, size, all);
                        }
                        return false;
                    }
                    proof {
                        assert(code.proc_ok(all[done], size));
                        done = done + 1;
                    }
                },
            }
        }
    }

    /// Check that an `ElfProof` object is valid.
    pub fn validate(&self) -> (r: Result<(), ValidateError>)
        ensures
            r is Ok <==> self.valid(),
            r == Err::<(), ValidateError>(ValidateError::Header) <==> !self.header_ok(),
            r == Err::<(), ValidateError>(ValidateError::Assembly) <==> self.header_ok()
                && !self.linked().assembly_ok(self.segment().len()),
            r == Err::<(), ValidateError>(ValidateError::Proof) <==> self.header_ok()
                && self.linked().assembly_ok(self.segment().len()) && !self.linked().proofs_ok(
                self.segment().len(),
            ),
    {
        if !self.validate_header() {
            return Err(ValidateError::Header);
        }
        if !self.validate_assembly() {
            return Err(ValidateError::Assembly);
        }
        if !self.validate_proofs() {
            return Err(ValidateError::Proof);
        }
        Ok(())
    }
}

impl<'a> core::ops::Deref for ElfProof<'a> {
    type Target = [u8];

    fn deref(&self) -> (r: &[u8])
        ensures
            r@ == self.image(),
    {
        self.file.as_slice()
    }
}

/// All procedures are ok if and only if those that a [`ProcIter`] lists are.
proof fn lemma_proofs_ok(code: LinkedCode, size: nat, all: Seq<Option<ProcId>>)
    requires
        all == code.postorder@.map_values(|f: ProcId| Some(f)).push(None),
    ensures
        code.proofs_ok(size) <==> forall|i: int|
            0 <= i < all.len() ==> code.proc_ok(#[trigger] all[i], size),
{
    let n = code.postorder@.len();
    assert(all[n as int] == None::<ProcId>);
    assert(forall|i: int| 0 <= i < n ==> all[i] == Some(#[trigger] code.postorder@[i]));
    if code.proofs_ok(size) {
        assert forall|i: int| 0 <= i < all.len() implies code.proc_ok(#[trigger] all[i], size) by {
            if i < n {
                assert(all[i] == Some(code.postorder@[i]));
            }
        }
    }
}

/// The two headers and the content of the segment make up the file.
pub proof fn law_file_parts(image: Seq<u8>)
    requires
        image.len() >= CONTENT_START,
    ensures
        image.take(P_HEADER_START as int) + image.subrange(
            P_HEADER_START as int,
            CONTENT_START as int,
        ) + image.skip(CONTENT_START as int) == image,
{
    assert(image.take(P_HEADER_START as int) + image.subrange(
        P_HEADER_START as int,
        CONTENT_START as int,
    ) + image.skip(CONTENT_START as int) =~= image);
}

/// In a valid file every item and every procedure of the proof order can be listed, and the
/// size of the BSS section is defined.
pub proof fn law_valid_can_be_read(elf: ElfProof<'_>)
    requires
        elf.valid(),
    ensures
        forall|k: int|
            0 <= k < elf.linked().item_count() ==> #[trigger] elf.linked().item_fits(
                k,
                elf.segment().len(),
            ),
        forall|i: int|
            0 <= i < elf.linked().postorder@.len() ==> elf.linked().proc_fits(
                Some(#[trigger] elf.linked().postorder@[i]),
                elf.segment().len(),
            ),
        elf.linked().proc_fits(None, elf.segment().len()),
        elf.filesz() <= elf.memsz(),
{
    let code = elf.linked();
    let size = elf.segment().len();
    assert forall|k: int| 0 <= k < code.item_count() implies #[trigger] code.item_fits(
        k,
        size,
    ) by {
        assert(code.item_ok(k, size));
    }
    assert forall|i: int| 0 <= i < code.postorder@.len() implies code.proc_fits(
        Some(#[trigger] code.postorder@[i]),
        size,
    ) by {
        assert(code.proc_ok(Some(code.postorder@[i]), size));
    }
}

/// In a valid file the items make up the segment.
pub proof fn law_valid_items_join(elf: ElfProof<'_>)
    requires
        elf.valid(),
    ensures
        joined_items(elf.linked(), elf.segment(), elf.linked().item_count()) == elf.segment(),
{
    law_items_join(elf.linked(), elf.segment());
}

/// In a valid file the control flow of every procedure of the proof order, and of the init
/// function, is sound: every flow comes to an end, every jump with a variant goes to a label of
/// an enclosing induction, and every jump without one goes to a block that is available as
/// proved, by an earlier step.
pub proof fn law_valid_sound(elf: ElfProof<'_>, id: Option<ProcId>)
    requires
        elf.valid(),
        id matches Some(f) ==> elf.linked().postorder@.contains(f),
    ensures
        ({
            let cfg = elf.linked().cfg(id);
            let steps = tree_steps(cfg.tree, Set::empty(), Set::empty());
            &&& steps_sound(cfg, steps)
            &&& known_proved(steps, Set::empty())
        }),
{
    let code = elf.linked();
    if let Some(f) = id {
        let i = code.postorder@.index_of(f);
        assert(code.proc_ok(Some(code.postorder@[i]), elf.segment().len()));
    }
    law_tree_sound(code.cfg(id), code.cfg(id).tree, Map::empty());
    law_known_proved(code.cfg(id), code.cfg(id).tree, Map::empty());
    assert(hyps_of(Map::empty()) =~= Set::empty());
    assert(known_of(Map::empty()) =~= Set::empty());
}

/// In a valid file the control flow of every function of the proof order is sound, in the graph
/// that the program holds under the name of that function.
pub proof fn law_valid_function_sound(elf: ElfProof<'_>, f: ProcId)
    requires
        elf.valid(),
        elf.linked().postorder@.contains(f),
    ensures
        ({
            let cfg = elf.linked().mir@[elf.linked().func_names@[f.0 as int].0];
            let steps = tree_steps(cfg.tree, Set::empty(), Set::empty());
            &&& steps_sound(cfg, steps)
            &&& known_proved(steps, Set::empty())
        }),
{
    law_valid_sound(elf, Some(f));
}

/// A file is valid exactly if the segment is not empty, its size is the one that the header
/// gives for the file, and not larger than the one for memory, the items fill it, and every
/// function of the proof order, with the graph of its own name, and the init function lie in it
/// and their trees go through when nothing has been proved yet.
pub proof fn law_valid(elf: ElfProof<'_>)
    ensures
        elf.valid() <==> {
            let code = elf.linked();
            let size = elf.segment().len();
            &&& size > 0
            &&& le_u64(elf.image().subrange(0x60, 0x68)) == size
            &&& size <= le_u64(elf.image().subrange(0x68, 0x70))
            &&& code.assembly_ok(size)
            &&& forall|i: int|
                0 <= i < code.postorder@.len() ==> {
                    let f = #[trigger] code.postorder@[i];
                    let cfg = code.mir@[code.func_names@[f.0 as int].0];
                    &&& code.proc_fits(Some(f), size)
                    &&& check_tree(cfg, cfg.tree, Map::empty()) is Some
                }
            &&& code.proc_fits(None, size)
            &&& check_tree(code.init.0, code.init.0.tree, Map::empty()) is Some
        },
{
    let code = elf.linked();
    let size = elf.segment().len();
    if elf.valid() {
        assert forall|i: int| 0 <= i < code.postorder@.len() implies {
            let f = #[trigger] code.postorder@[i];
            let cfg = code.mir@[code.func_names@[f.0 as int].0];
            &&& code.proc_fits(Some(f), size)
            &&& check_tree(cfg, cfg.tree, Map::empty()) is Some
        } by {
            assert(code.proc_ok(Some(code.postorder@[i]), size));
        }
    }
}

/// The number that eight bytes stand for has these bytes when it is written with its lowest
/// byte first.
pub proof fn law_number_bytes(x: u64)
    ensures
        le_u64(vstd::bytes::spec_u64_to_le_bytes(x)) == x,
{
    vstd::bytes::spec_u64_to_le_bytes_to_open(x);
    assert(x == (x & 0xff) as u8 + ((x >> 8) & 0xff) as u8 * 0x100 + ((x >> 16) & 0xff) as u8
        * 0x1_0000 + ((x >> 24) & 0xff) as u8 * 0x100_0000 + ((x >> 32) & 0xff) as u8
        * 0x1_0000_0000 + ((x >> 40) & 0xff) as u8 * 0x100_0000_0000 + ((x >> 48) & 0xff) as u8
        * 0x1_0000_0000_0000 + ((x >> 56) & 0xff) as u8 * 0x100_0000_0000_0000) by (bit_vector);
}

} // verus!
