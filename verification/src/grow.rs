//! Room on the call stack for the functions that recurse over a tree.
use vstd::prelude::*;

verus! {

/// Stack that has to be left before a recursive step runs where it is.
pub const STACK_RED_ZONE: usize = 0x8_0000;

/// Stack that is allocated when less is left.
pub const STACK_GROW_BY: usize = 0x40_0000;

/// `stacker::maybe_grow` calls the closure once, on the present stack or on a
/// fresh one, and returns what it returned. A requested size that does not fit
/// the address space once rounded up to pages makes it panic; sizes up to a
/// gigabyte stay clear of that. That it panics where the operating system
/// refuses the memory is left unsaid.
pub assume_specification<R, F: FnOnce() -> R>[ stacker::maybe_grow::<R, F> ](
    red_zone: usize,
    stack_size: usize,
    callback: F,
) -> (ret: R)
    requires
        stack_size <= 0x4000_0000,
        callback.requires(()),
    ensures
        callback.ensures((), ret),
;

} // verus!
