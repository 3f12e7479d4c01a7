use vstd::prelude::*;

verus! {

/// Size of one page and of one physical frame, in bytes.
pub const PAGE_SIZE: usize = 0x1000;

/// Size of the user stack mapped above the highest loaded segment.
pub const USER_STACK_SIZE: usize = 4096 * 5;

/// Size of each task's kernel stack.
pub const KERNEL_STACK_SIZE: usize = 4096 * 5;

/// First address above the user part of every address space: the lower half
/// of the machine's address range.
pub const USER_SPACE_END: usize = usize::MAX / 2 + 1;

/// The user part is page-aligned, and at least 2 GiB even on 32-bit machines.
pub proof fn lemma_user_space_end()
    ensures
        USER_SPACE_END % PAGE_SIZE == 0,
        USER_SPACE_END >= 0x8000_0000,
        USER_SPACE_END / PAGE_SIZE <= 0x8_0000_0000_0000,
        USER_SPACE_END - 1 + USER_SPACE_END == usize::MAX,
{
    assert(usize::MAX == 0xffff_ffff || usize::MAX == 0xffff_ffff_ffff_ffff);
}

} // verus!
