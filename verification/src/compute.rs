use vstd::prelude::*;

verus! {

/// Device ceiling on the workgroup count in each dispatch dimension.
pub const MAX_DISPATCH_PER_DIMENSION: u32 = 65535;

/// Invocations per workgroup along the second axis of the kernel.
pub const WORKGROUP_SIZE: u32 = 64;

/// Workgroup count used along the second axis: the least value whose product
/// with WORKGROUP_SIZE covers MAX_DISPATCH_PER_DIMENSION + 1 invocations.
pub const Y_WORKGROUPS: u32 = 1024;

/// Work-item counts at or above this cannot be covered by a dispatch whose
/// first dimension stays within MAX_DISPATCH_PER_DIMENSION.
pub const MAX_DISPATCH_WORK: u64 = 65535 * 65536;

/// Converts a work-item count into a (x, y, z) workgroup dispatch shape for
/// the iteration kernel. The shape always covers `total_work` invocations,
/// x * y * WORKGROUP_SIZE >= total_work, with both counts within the device
/// ceiling; the slack invocations are bounds-checked away by the kernel.
pub fn mandelbrot_dispatch_size(total_work: usize) -> (shape: (u32, u32, u32))
    requires
        (total_work as u64) < MAX_DISPATCH_WORK,
    ensures
        shape.0 == total_work as int / (Y_WORKGROUPS as int * WORKGROUP_SIZE as int) + 1,
        shape.0 as int * shape.1 as int * WORKGROUP_SIZE as int >= total_work as int,
        1 <= shape.0 <= MAX_DISPATCH_PER_DIMENSION,
        shape.1 == Y_WORKGROUPS,
        shape.1 <= MAX_DISPATCH_PER_DIMENSION,
        shape.2 == 1,
{
    let per_x: u64 = Y_WORKGROUPS as u64 * WORKGROUP_SIZE as u64;
    let q: u64 = total_work as u64 / per_x;
    proof {
        vstd::arithmetic::div_mod::lemma_fundamental_div_mod(total_work as int, 65536);
        vstd::arithmetic::div_mod::lemma_div_is_ordered(
            total_work as int,
            65535 * 65536 - 1,
            65536,
        );
        assert(q <= 65534);
        assert((q + 1) * 65536 >= total_work as int);
    }
    let x: u32 = q as u32 + 1;
    (x, Y_WORKGROUPS, 1)
}

} // verus!
