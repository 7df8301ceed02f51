//! Which kernel computes a distance.
//!
//! The kernels themselves are arithmetic on scalars and belong to the
//! caller. There is a portable one, and one that works on eight scalars at a
//! time where the processor can; the rule that picks between them is here.

use vstd::prelude::*;

verus! {

/// How many scalars the wide kernel takes at a time.
pub const LANES: usize = 8;

/// A way to compute a distance.
#[derive(Debug, Clone, Copy, PartialEq, Eq, Structural)]
pub enum Kernel {
    /// One scalar at a time; the reference.
    Scalar,
    /// Eight scalars at a time.
    Wide,
}

/// The kernel for vectors of a length: the wide one where the processor
/// offers it and the length is a multiple of its lanes, else the scalar one.
pub open spec fn chosen_kernel(len: usize, wide_available: bool) -> Kernel {
    if wide_available && len % LANES == 0 {
        Kernel::Wide
    } else {
        Kernel::Scalar
    }
}

/// Picks the kernel for vectors of a length.
pub fn select_kernel(len: usize, wide_available: bool) -> (kernel: Kernel)
    ensures
        kernel == chosen_kernel(len, wide_available),
{
    if wide_available && len % LANES == 0 {
        Kernel::Wide
    } else {
        Kernel::Scalar
    }
}

/// The wide kernel is only ever chosen for whole groups of lanes, and
/// without it every length goes to the scalar kernel.
pub proof fn lemma_wide_kernel_takes_whole_lanes(len: usize, wide_available: bool)
    ensures
        chosen_kernel(len, wide_available) == Kernel::Wide ==> len % LANES == 0,
        !wide_available ==> chosen_kernel(len, wide_available) == Kernel::Scalar,
{
}

} // verus!
