use vstd::prelude::*;
use crate::basic::ir::VReg;

verus! {

/// Gives every virtual register its own 8-byte slot below the frame pointer.
pub struct StackAllocator {
    pub offsets: Vec<usize>,
    pub frame_size: usize,
}

/// The frame size for `n` registers: `8 * n` rounded up to a multiple of 16.
pub open spec fn frame_size_for(n: nat) -> nat {
    ((n * 8 + 15) / 16 * 16) as nat
}

impl StackAllocator {
    /// An allocator with no slots.
    pub fn new() -> (r: Self)
        ensures
            r.offsets@ == Seq::<usize>::empty(),
            r.frame_size == 0,
    {
        StackAllocator { offsets: Vec::new(), frame_size: 0 }
    }

    /// Lays out `num_vregs` registers: register `i` lives at `8 * (i + 1)`
    /// bytes below the frame pointer.
    pub fn allocate(&mut self, num_vregs: usize)
        requires
            num_vregs * 8 + 15 <= usize::MAX,
        ensures
            final(self).offsets@.len() == num_vregs,
            forall|i: int| 0 <= i < num_vregs ==> #[trigger] final(self).offsets@[i] == (i + 1) * 8,
            final(self).frame_size == frame_size_for(num_vregs as nat),
    {
        let mut offsets: Vec<usize> = Vec::new();
        let mut i: usize = 0;
        while i < num_vregs
            invariant
                i <= num_vregs,
                num_vregs * 8 + 15 <= usize::MAX,
                offsets@.len() == i,
                forall|j: int| 0 <= j < i ==> #[trigger] offsets@[j] == (j + 1) * 8,
            decreases num_vregs - i,
        {
            offsets.push((i + 1) * 8);
            i = i + 1;
        }
        self.offsets = offsets;
        let total: usize = num_vregs * 8 + 15;
        let size: usize = total & !15usize;
        assert(total & !15usize == total - total % 16) by (bit_vector);
        assert(total - total % 16 == total / 16 * 16);
        self.frame_size = size;
    }

    /// The offset of `vreg`'s slot below the frame pointer.
    pub fn offset(&self, vreg: VReg) -> (r: usize)
        requires
            vreg < self.offsets@.len(),
        ensures
            r == self.offsets@[vreg as int],
    {
        self.offsets[vreg]
    }
}

/// After `allocate(n)`, the slots of different registers do not overlap and
/// all of them lie inside the frame.
pub proof fn lemma_slots_disjoint_in_frame(n: nat, i: int, j: int)
    requires
        0 <= i < j < n,
    ensures
        (i + 1) * 8 + 8 <= (j + 1) * 8,
        (j + 1) * 8 <= frame_size_for(n),
{
    assert((n * 8 + 15) / 16 * 16 >= n * 8) by {
        let t = n * 8 + 15;
        assert(t / 16 * 16 > t - 16) by (nonlinear_arith) requires t >= 0;
    }
}

} // verus!
