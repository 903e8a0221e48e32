//! Arena layout arithmetic: alignment-respecting bump packing.
//!
//! A slot's byte offset is the running arena size rounded up to the
//! slot's required alignment; the arena then grows by the slot's size.
//! Every quantity is kept at or below `ARENA_LIMIT`, so the arithmetic
//! below never overflows a `usize`.

use vstd::prelude::*;

verus! {

/// Largest arena size (and largest single size or alignment) the
/// container accepts, so that offsets and their differences stay
/// representable on every supported machine.
pub const ARENA_LIMIT: usize = 0x7fff_ffff;

/// The memory layout one bean occupies: a byte size and an alignment.
#[derive(Clone, Copy, Debug)]
pub struct BeanLayout {
    pub size: usize,
    pub align: usize,
}

impl BeanLayout {
    /// A layout the packing arithmetic accepts: a positive alignment,
    /// with both measures small enough for bump packing to stay in range.
    pub open spec fn wf(self) -> bool {
        &&& 1 <= self.align <= ARENA_LIMIT
        &&& self.size <= ARENA_LIMIT
    }

    /// Builds a layout, rejecting one the packing arithmetic cannot take.
    pub fn new(size: usize, align: usize) -> (r: Option<BeanLayout>)
        ensures
            r matches Some(l) ==> l.size == size && l.align == align && l.wf(),
            r is None <==> !(BeanLayout { size, align }).wf(),
    {
        if 1 <= align && align <= ARENA_LIMIT && size <= ARENA_LIMIT {
            Some(BeanLayout { size, align })
        } else {
            None
        }
    }
}

/// `off` rounded up to the next multiple of `align`.
pub open spec fn spec_align_up(off: int, align: int) -> int {
    ((off + align - 1) / align) * align
}

/// Rounding up to a positive alignment lands on a multiple of it that is
/// at least `off` and less than `off + align`.
pub proof fn lemma_align_up_bounds(off: int, align: int)
    requires
        0 <= off,
        1 <= align,
    ensures
        spec_align_up(off, align) % align == 0,
        off <= spec_align_up(off, align) < off + align,
{
    let q = (off + align - 1) / align;
    assert(q * align % align == 0) by (nonlinear_arith)
        requires 1 <= align;
    assert(off <= q * align < off + align) by (nonlinear_arith)
        requires 0 <= off && 1 <= align && q == (off + align - 1) / align;
}

/// Rounds `off` up to a multiple of `align`.
pub fn align_up(off: usize, align: usize) -> (r: usize)
    requires
        off <= ARENA_LIMIT,
        1 <= align <= ARENA_LIMIT,
    ensures
        r == spec_align_up(off as int, align as int),
        off <= r < off + align,
        r % align == 0,
{
    proof {
        lemma_align_up_bounds(off as int, align as int);
    }
    ((off + align - 1) / align) * align
}

} // verus!
