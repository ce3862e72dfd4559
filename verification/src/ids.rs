//! Identifiers, and vectors that are indexed by them.
use core::marker::PhantomData;
use vstd::prelude::*;

verus! {

/// A type whose values number the elements of an [`IdxVec`].
pub trait Idx: Copy {
    /// The position that this identifier stands for.
    spec fn pos(self) -> nat;

    /// The position that this identifier stands for.
    fn into_usize(self) -> (r: usize)
        ensures
            r == self.pos(),
    ;
}

/// The name of a global item.
#[derive(Clone, Copy, Debug, PartialEq, Eq, Structural)]
pub struct Symbol(pub u32);

/// The identifier of a function.
#[derive(Clone, Copy, Debug, PartialEq, Eq, Structural)]
pub struct ProcId(pub u32);

/// The identifier of a basic block of the control flow graph.
#[derive(Clone, Copy, Debug, PartialEq, Eq, Structural)]
pub struct BlockId(pub u32);

/// The identifier of a physical block, numbered in the order of assembly.
#[derive(Clone, Copy, Debug, PartialEq, Eq, Structural)]
pub struct VBlockId(pub u32);

impl Idx for ProcId {
    open spec fn pos(self) -> nat {
        self.0 as nat
    }

    fn into_usize(self) -> (r: usize) {
        self.0 as usize
    }
}

impl Idx for BlockId {
    open spec fn pos(self) -> nat {
        self.0 as nat
    }

    fn into_usize(self) -> (r: usize) {
        self.0 as usize
    }
}

impl Idx for VBlockId {
    open spec fn pos(self) -> nat {
        self.0 as nat
    }

    fn into_usize(self) -> (r: usize) {
        self.0 as usize
    }
}

/// A vector whose elements are numbered by identifiers of type `I`.
#[derive(Debug)]
pub struct IdxVec<I, T>(pub Vec<T>, pub PhantomData<I>);

impl<I: Idx, T> View for IdxVec<I, T> {
    type V = Seq<T>;

    open spec fn view(&self) -> Seq<T> {
        self.0@
    }
}

impl<I: Idx, T> IdxVec<I, T> {
    /// Numbers the elements of a vector by their positions.
    pub fn from_vec(elems: Vec<T>) -> (r: Self)
        ensures
            r@ == elems@,
    {
        IdxVec(elems, PhantomData)
    }

    /// The number of elements.
    pub fn len(&self) -> (r: usize)
        ensures
            r == self@.len(),
    {
        self.0.len()
    }

    /// The element that `i` stands for, if there is one.
    pub fn get(&self, i: I) -> (r: Option<&T>)
        ensures
            i.pos() < self@.len() ==> r == Some(&self@[i.pos() as int]),
            i.pos() >= self@.len() ==> r is None,
    {
        let n: usize = i.into_usize();
        if n < self.0.len() {
            Some(&self.0[n])
        } else {
            None
        }
    }
}

} // verus!
