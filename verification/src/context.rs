//! The context of a block proof: which blocks may be jumped to, and how.
//!
//! A context maps the number of a block to `false` once the block has been proved, and to
//! `true` while the block is only available as the hypothesis of an enclosing induction.
use std::collections::hash_map::RandomState;
use vstd::prelude::*;

verus! {

/// The persistent hash map of the `im` crate.
#[verifier::external_type_specification]
#[verifier::external_body]
#[verifier::reject_recursive_types(K)]
#[verifier::reject_recursive_types(V)]
#[verifier::reject_recursive_types(S)]
pub struct ExHashMap<K, V, S>(im::HashMap<K, V, S>);

/// The context of a block proof, keyed by block numbers.
pub type BlockContext = im::HashMap<u32, bool, RandomState>;

/// What an `im::HashMap` from block numbers to flags holds.
pub uninterp spec fn entries(ctx: im::HashMap<u32, bool, RandomState>) -> Map<u32, bool>;

/// Calls `im::HashMap::default`, which makes a map without entries.
#[verifier::external_body]
pub(crate) fn context_empty() -> (ctx: BlockContext)
    ensures
        entries(ctx).dom() == Set::<u32>::empty(),
{
    im::HashMap::default()
}

/// Calls `im::HashMap::clone`, which makes a map with the same entries that later changes of
/// either map do not affect.
#[verifier::external_body]
pub(crate) fn context_clone(ctx: &BlockContext) -> (r: BlockContext)
    ensures
        entries(r) == entries(*ctx),
{
    ctx.clone()
}

/// Calls `im::HashMap::get`, which finds the value that a key is mapped to, if there is one.
#[verifier::external_body]
pub(crate) fn context_get(ctx: &BlockContext, block: u32) -> (r: Option<bool>)
    ensures
        entries(*ctx).contains_key(block) ==> r == Some(entries(*ctx)[block]),
        !entries(*ctx).contains_key(block) ==> r is None,
{
    ctx.get(&block).copied()
}

/// Calls `im::HashMap::insert`, which maps a key to a value in place of the value that it was
/// mapped to before, and returns the latter if there was one.
#[verifier::external_body]
pub(crate) fn context_insert(ctx: &mut BlockContext, block: u32, hyp: bool) -> (r: Option<bool>)
    ensures
        entries(*final(ctx)) == entries(*old(ctx)).insert(block, hyp),
        entries(*old(ctx)).contains_key(block) ==> r == Some(entries(*old(ctx))[block]),
        !entries(*old(ctx)).contains_key(block) ==> r is None,
{
    ctx.insert(block, hyp)
}

} // verus!
