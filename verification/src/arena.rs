//! The calls into `bumpalo` that the arena representations make.
use vstd::prelude::*;

verus! {

/// `bumpalo::Bump`, the arena that the arena representations allocate in.
/// Verus sees nothing inside it.
#[verifier::external_type_specification]
#[verifier::external_body]
pub struct ExBump<const MIN_ALIGN: usize>(bumpalo::Bump<MIN_ALIGN>);

/// The byte capacity that an arena was asked for when it was made. This is
/// the request itself, not what the allocator reserved for it.
pub uninterp spec fn requested_capacity(arena: bumpalo::Bump) -> nat;

/// Calls `bumpalo::Bump::with_capacity`, which makes an empty arena whose first
/// chunk holds at least `capacity` bytes. The claim is only that the arena was
/// made on a request for `capacity` bytes; how much the allocator reserved is
/// not stated. The call panics when `capacity` exceeds `isize::MAX`, which
/// `requires` excludes, and, like every allocation, when the first chunk
/// cannot be allocated.
#[verifier::external_body]
pub(crate) fn arena_with_capacity(capacity: usize) -> (arena: bumpalo::Bump)
    requires
        capacity <= isize::MAX,
    ensures
        requested_capacity(arena) == capacity,
{
    bumpalo::Bump::with_capacity(capacity)
}

/// Calls `bumpalo::Bump::alloc`, which moves `value` into the arena and returns
/// a reference to it for as long as the arena is borrowed. The claim is that
/// the reference reads back the value that was moved in. Like every
/// allocation, the call panics when space cannot be reserved.
#[verifier::external_body]
pub(crate) fn arena_alloc<'a, T>(arena: &'a bumpalo::Bump, value: T) -> (placed: &'a T)
    ensures
        *placed == value,
{
    arena.alloc(value)
}

/// Calls `bumpalo::Bump::alloc_slice_fill_with`, which allocates a slice of
/// `len` elements in the arena and fills position `i` with what `fill` returns
/// for `i`. The claim is that the slice has `len` elements and that each
/// element is a result `fill` may give for its position. It panics when the
/// slice would take more than `isize::MAX` bytes, which `requires` excludes,
/// and, like every allocation, when space cannot be reserved.
#[verifier::external_body]
pub(crate) fn arena_alloc_slice_fill_with<'a, T, F: Fn(usize) -> T>(
    arena: &'a bumpalo::Bump,
    len: usize,
    fill: F,
) -> (slice: &'a [T])
    requires
        len * vstd::layout::size_of::<T>() <= isize::MAX,
        forall|i: usize| i < len ==> #[trigger] fill.requires((i,)),
    ensures
        slice@.len() == len,
        forall|i: int| 0 <= i < len ==> fill.ensures((i as usize,), #[trigger] slice@[i]),
{
    arena.alloc_slice_fill_with(len, fill)
}

} // verus!
