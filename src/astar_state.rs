use vstd::prelude::*;

verus! {

/// What every searchable state exposes to the engine.
///
/// `key` names the equivalence class of the state: two states with the same
/// key are one node of the search. The key must tell classes apart: states of
/// two different classes that are given the same `u64` are merged into one
/// node, and only one of them is ever expanded. `g` is the cost accumulated from the start,
/// `h` the estimate of the cost left, and `f` the total estimate by which the
/// open list orders its entries (conventionally `g + h`).
///
/// The spec functions name what the executable methods return, so that the
/// engine's contracts can speak of a state's key, cost and goal test.
pub trait AStarState: Sized {
    spec fn spec_key(&self) -> u64;

    spec fn spec_f(&self) -> usize;

    spec fn spec_is_goal(&self) -> bool;

    fn key(&self) -> (r: u64)
        ensures
            r == self.spec_key(),
    ;

    fn h(&self) -> usize;

    fn f(&self) -> (r: usize)
        ensures
            r == self.spec_f(),
    ;

    fn g(&self) -> usize;

    fn is_goal(&self) -> (r: bool)
        ensures
            r == self.spec_is_goal(),
    ;
}

/// The number of distinct keys there can be.
pub open spec fn key_space() -> int {
    0x1_0000_0000_0000_0000
}

/// A set of keys holds at most every key once: a search that closes a key
/// not closed before on each step makes at most `key_space()` steps.
pub proof fn lemma_key_space_bound(keys: Set<u64>)
    requires
        keys.finite(),
    ensures
        keys.len() <= key_space(),
{
    let widen = |k: u64| k as int;
    let wide = keys.map(widen);
    assert(vstd::relations::injective_on(widen, keys));
    vstd::set_lib::lemma_map_size(keys, wide, widen);
    vstd::set_lib::lemma_int_range(0, key_space());
    assert(wide.subset_of(vstd::set_lib::set_int_range(0, key_space())));
    vstd::set_lib::lemma_len_subset(wide, vstd::set_lib::set_int_range(0, key_space()));
}

} // verus!
